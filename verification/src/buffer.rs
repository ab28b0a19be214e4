//! Allocation of ranges inside a batch buffer.
//!
//! A `BatchBufferAllocator` hands out contiguous ranges (`BatchBufferPointer`s) of a
//! growable buffer. Freed ranges are kept as pending ranges, merged with the pending
//! ranges right below them, reused by later allocations (best fit by size), and
//! dropped when they reach the end of the buffer. Every change that the GPU copy of
//! the buffer must follow is queued as an event.
use vstd::prelude::*;
use std::collections::VecDeque;

verus! {

/// A range `[first, first + len)` of a batch buffer.
#[derive(Copy, Clone, Debug)]
pub struct BatchBufferPointer {
    pub first: usize,
    pub len: usize,
}

/// Two pointers are equal when they start at the same place: a buffer never holds
/// two live ranges that start at the same place.
impl PartialEq for BatchBufferPointer {
    fn eq(&self, other: &Self) -> (r: bool) {
        self.first == other.first
    }
}

impl vstd::std_specs::cmp::PartialEqSpecImpl for BatchBufferPointer {
    open spec fn obeys_eq_spec() -> bool {
        true
    }

    open spec fn eq_spec(&self, other: &Self) -> bool {
        self.first == other.first
    }
}

impl Eq for BatchBufferPointer {
}

impl BatchBufferPointer {
    pub fn new(first: usize, len: usize) -> (r: Self)
        ensures
            r.first == first,
            r.len == len,
    {
        BatchBufferPointer { first, len }
    }

    pub fn first(&self) -> (r: usize)
        ensures
            r == self.first,
    {
        self.first
    }
}

/// One past the last slot of a range.
pub open spec fn end(p: BatchBufferPointer) -> int {
    p.first + p.len
}

/// Two ranges share no slot.
pub open spec fn disjoint(a: BatchBufferPointer, b: BatchBufferPointer) -> bool {
    end(a) <= b.first || end(b) <= a.first
}

/// A pair of the old and the new place of a range moved by a reallocation.
#[derive(Copy, Clone, Debug)]
pub struct BatchBufferAllocatorReallocPair {
    pub from: BatchBufferPointer,
    pub to: BatchBufferPointer,
}

/// What the owner of the buffer has to do to follow the allocator.
#[derive(Debug)]
pub enum BatchBufferAllocatorEvent {
    Write(BatchBufferPointer),
    Clear(BatchBufferPointer),
    ReallocateAll { pairs: Vec<BatchBufferAllocatorReallocPair> },
}

/// An event as it waits in the allocator's queue.
#[derive(Debug)]
pub enum Event {
    Clear { pointer: BatchBufferPointer },
    Write { first: usize },
    Reallocate { pairs: Vec<BatchBufferAllocatorReallocPair> },
}

/// The pending ranges of one size, identified by their ends, most recent first.
struct PendingGroup {
    size: usize,
    lasts: VecDeque<usize>,
}

/// Groups of pending ranges: pairs of a size and the ends of the ranges of that size.
pub type Groups = Seq<(usize, Seq<usize>)>;

/// The abstract state of an allocator.
pub struct AllocatorView {
    /// Live ranges, by increasing start.
    pub pointers: Seq<BatchBufferPointer>,
    /// Pending ranges, grouped by size (sizes increasing).
    pub groups: Groups,
    /// Queued events, oldest first.
    pub events: Seq<Event>,
    /// Length of the used part of the buffer.
    pub len: usize,
}

pub open spec fn valid_entry(groups: Groups, g: int, k: int) -> bool {
    0 <= g < groups.len() && 0 <= k < groups[g].1.len()
}

/// The pending range at entry `k` of group `g`.
pub open spec fn pending_at(groups: Groups, g: int, k: int) -> BatchBufferPointer {
    BatchBufferPointer { first: (groups[g].1[k] - groups[g].0) as usize, len: groups[g].0 }
}

pub open spec fn is_pending(groups: Groups, p: BatchBufferPointer) -> bool {
    exists|g: int, k: int| valid_entry(groups, g, k) && #[trigger] pending_at(groups, g, k) == p
}

pub open spec fn pending_set(groups: Groups) -> Set<BatchBufferPointer> {
    Set::new(|p: BatchBufferPointer| is_pending(groups, p))
}

/// Well-formed groups: sizes increase, every entry is a range of positive length
/// inside the buffer, and no end occurs twice.
pub open spec fn groups_wf(groups: Groups) -> bool {
    &&& forall|g: int, h: int| 0 <= g < h < groups.len() ==> groups[g].0 < groups[h].0
    &&& forall|g: int, k: int|
        #[trigger] valid_entry(groups, g, k) ==> 0 < groups[g].0 && groups[g].0 <= groups[g].1[k]
    &&& forall|g: int, k: int, h: int, m: int|
        #[trigger] valid_entry(groups, g, k) && #[trigger] valid_entry(groups, h, m) && (g != h
            || k != m) ==> groups[g].1[k] != groups[h].1[m]
}

/// First index at or after `i` of the group of size `size`; -1 when there is none.
pub open spec fn group_index_from(groups: Groups, size: int, i: int) -> int
    decreases groups.len() - i,
{
    if i < 0 || i >= groups.len() {
        -1
    } else if groups[i].0 == size {
        i
    } else {
        group_index_from(groups, size, i + 1)
    }
}

pub open spec fn group_index(groups: Groups, size: int) -> int {
    group_index_from(groups, size, 0)
}

/// First index at or after `i` of a group whose size is at least `size`; the number
/// of groups when there is none.
pub open spec fn first_at_least_from(groups: Groups, size: int, i: int) -> int
    decreases groups.len() - i,
{
    if i < 0 || i >= groups.len() {
        groups.len() as int
    } else if groups[i].0 >= size {
        i
    } else {
        first_at_least_from(groups, size, i + 1)
    }
}

pub open spec fn first_at_least(groups: Groups, size: int) -> int {
    first_at_least_from(groups, size, 0)
}

/// First index at or after `i` of `x` in `s`; -1 when there is none.
pub open spec fn seq_index_from(s: Seq<usize>, x: int, i: int) -> int
    decreases s.len() - i,
{
    if i < 0 || i >= s.len() {
        -1
    } else if s[i] == x {
        i
    } else {
        seq_index_from(s, x, i + 1)
    }
}

/// The first entry, group by group, of a pending range that ends at `x`.
pub open spec fn find_pending_from(groups: Groups, x: int, g: int) -> Option<(int, int)>
    decreases groups.len() - g,
{
    if g < 0 || g >= groups.len() {
        None
    } else if seq_index_from(groups[g].1, x, 0) >= 0 {
        Some((g, seq_index_from(groups[g].1, x, 0)))
    } else {
        find_pending_from(groups, x, g + 1)
    }
}

pub open spec fn find_pending(groups: Groups, x: int) -> Option<(int, int)> {
    find_pending_from(groups, x, 0)
}

/// Adds a range of the given size and end in front of the ranges of its size.
pub open spec fn groups_push_front(groups: Groups, size: usize, last: usize) -> Groups {
    let gi = group_index(groups, size as int);
    if gi >= 0 {
        groups.update(gi, (groups[gi].0, seq![last] + groups[gi].1))
    } else {
        groups.insert(first_at_least(groups, size as int), (size, seq![last]))
    }
}

/// Takes the first range of group `gi` out; the group stays even when it is empty.
pub open spec fn groups_pop_front(groups: Groups, gi: int) -> Groups {
    groups.update(gi, (groups[gi].0, groups[gi].1.drop_first()))
}

/// Removes the range of the given size and end; a group left empty goes away.
pub open spec fn groups_remove(groups: Groups, size: usize, last: usize) -> Groups {
    let gi = group_index(groups, size as int);
    if gi < 0 {
        groups
    } else {
        let k = seq_index_from(groups[gi].1, last as int, 0);
        if k < 0 {
            groups
        } else if groups[gi].1.len() == 1 {
            groups.remove(gi)
        } else {
            groups.update(gi, (groups[gi].0, groups[gi].1.remove(k)))
        }
    }
}

/// Removes the chain of pending ranges that ends at `seek`, each range ending where the
/// next one starts; gives the remaining groups and the start of the chain.
pub open spec fn free_chain(groups: Groups, seek: int) -> (Groups, int)
    decreases seek,
{
    match find_pending(groups, seek) {
        Some((g, k)) => if 0 < groups[g].0 <= seek && seek >= 0 {
            free_chain(groups_remove(groups, groups[g].0, seek as usize), seek - groups[g].0)
        } else {
            (groups, seek)
        },
        None => (groups, seek),
    }
}

/// Index at which a pointer that starts at `first` goes into ranges sorted by start.
pub open spec fn insert_index_from(pointers: Seq<BatchBufferPointer>, first: int, i: int) -> int
    decreases pointers.len() - i,
{
    if i < 0 || i >= pointers.len() {
        pointers.len() as int
    } else if pointers[i].first > first {
        i
    } else {
        insert_index_from(pointers, first, i + 1)
    }
}

/// Index of the live range that starts at `first`; -1 when there is none.
pub open spec fn pointer_index_from(pointers: Seq<BatchBufferPointer>, first: int, i: int) -> int
    decreases pointers.len() - i,
{
    if i < 0 || i >= pointers.len() {
        -1
    } else if pointers[i].first == first {
        i
    } else {
        pointer_index_from(pointers, first, i + 1)
    }
}

/// Sum of the lengths of ranges.
pub open spec fn sum_lens(s: Seq<BatchBufferPointer>) -> int
    decreases s.len(),
{
    if s.len() == 0 {
        0
    } else {
        sum_lens(s.drop_last()) + s.last().len
    }
}

/// The ranges of the given lengths laid end to end from 0.
pub open spec fn packed(s: Seq<BatchBufferPointer>) -> Seq<BatchBufferPointer> {
    Seq::new(
        s.len(),
        |i: int| BatchBufferPointer { first: sum_lens(s.take(i)) as usize, len: s[i].len },
    )
}

/// The events that follow a repacking from `from` to `to`.
pub open spec fn repack_pairs_ok(
    pairs: Seq<BatchBufferAllocatorReallocPair>,
    from: Seq<BatchBufferPointer>,
    to: Seq<BatchBufferPointer>,
) -> bool {
    &&& pairs.len() == from.len()
    &&& forall|i: int| 0 <= i < pairs.len() ==> #[trigger] pairs[i].from == from[i] && pairs[i].to == to[i]
}

pub open spec fn write_events(to: Seq<BatchBufferPointer>) -> Seq<Event> {
    Seq::new(to.len(), |i: int| Event::Write { first: to[i].first })
}

/// Position at which `key` goes into `order` (indices of `keys`, sorted by key) so
/// that it comes after every equal key.
pub open spec fn key_insert_index_from(keys: Seq<i64>, order: Seq<int>, key: i64, i: int) -> int
    decreases order.len() - i,
{
    if i < 0 || i >= order.len() {
        order.len() as int
    } else if keys[order[i]] > key {
        i
    } else {
        key_insert_index_from(keys, order, key, i + 1)
    }
}

/// The indices `0..n` of `keys` in the order of a stable sort by key.
pub open spec fn stable_order(keys: Seq<i64>, n: nat) -> Seq<int>
    decreases n,
{
    if n == 0 {
        Seq::empty()
    } else {
        let prev = stable_order(keys, (n - 1) as nat);
        prev.insert(key_insert_index_from(keys, prev, keys[n - 1], 0), n - 1)
    }
}

/// Whether an allocation of `n` slots reuses a pending range.
pub open spec fn allocates_in_place(v: AllocatorView, n: int) -> bool {
    let gi = first_at_least(v.groups, n);
    0 <= gi < v.groups.len() && v.groups[gi].1.len() > 0
}

/// The state after an allocation of `n` slots, and the range handed out: the first
/// range of the smallest size at least `n` if that size still has ranges, cut to
/// `n` slots with the rest kept pending; else `n` new slots at the end.
pub open spec fn spec_allocate(v: AllocatorView, n: usize) -> (AllocatorView, BatchBufferPointer) {
    if allocates_in_place(v, n as int) {
        let gi = first_at_least(v.groups, n as int);
        let size = v.groups[gi].0;
        let last = v.groups[gi].1[0];
        let p = BatchBufferPointer { first: (last - size) as usize, len: n };
        let g1 = groups_pop_front(v.groups, gi);
        let g2 = if size == n {
            g1
        } else {
            groups_push_front(g1, (size - n) as usize, last)
        };
        (
            AllocatorView {
                pointers: v.pointers.insert(insert_index_from(v.pointers, p.first as int, 0), p),
                groups: g2,
                events: v.events.push(Event::Write { first: p.first }),
                len: v.len,
            },
            p,
        )
    } else {
        let p = BatchBufferPointer { first: v.len, len: n };
        (
            AllocatorView {
                pointers: v.pointers.push(p),
                groups: v.groups,
                events: v.events.push(Event::Write { first: v.len }),
                len: (v.len + n) as usize,
            },
            p,
        )
    }
}

/// The state after freeing the live range `p`: the range and the chain of pending
/// ranges right below it become one pending range, or, at the end of the buffer,
/// leave the buffer.
pub open spec fn spec_free(v: AllocatorView, p: BatchBufferPointer) -> AllocatorView {
    let idx = pointer_index_from(v.pointers, p.first as int, 0);
    let (g1, cs) = free_chain(v.groups, p.first as int);
    if end(p) == v.len {
        AllocatorView { pointers: v.pointers.remove(idx), groups: g1, events: v.events, len: cs as usize }
    } else {
        AllocatorView {
            pointers: v.pointers.remove(idx),
            groups: groups_push_front(g1, (end(p) - cs) as usize, end(p) as usize),
            events: v.events.push(Event::Clear { pointer: p }),
            len: v.len,
        }
    }
}

/// The queue after a repacking from `from` to `to`: one reallocation of all pairs,
/// then a write of every new range.
pub open spec fn repacked_events(events: Seq<Event>, from: Seq<BatchBufferPointer>, to: Seq<BatchBufferPointer>) -> bool {
    &&& events.len() == from.len() + 1
    &&& (events[0] matches Event::Reallocate { pairs } && repack_pairs_ok(pairs@, from, to))
    &&& events.skip(1) == write_events(to)
}

/// The state after a repacking: the ranges `s`, in this order, laid end to end
/// from 0, nothing pending.
pub open spec fn repacked(v: AllocatorView, s: Seq<BatchBufferPointer>) -> bool {
    &&& v.pointers == packed(s)
    &&& v.groups.len() == 0
    &&& v.len == sum_lens(s)
    &&& repacked_events(v.events, s, packed(s))
}

/// The state after taking the oldest event, and what is handed out for it. A queued
/// write of a range that no longer starts there hands out nothing.
pub open spec fn spec_pop_event(v: AllocatorView) -> (AllocatorView, Option<BatchBufferAllocatorEvent>) {
    if v.events.len() == 0 {
        (v, None)
    } else {
        let w = AllocatorView { events: v.events.drop_first(), ..v };
        match v.events[0] {
            Event::Write { first } => {
                let i = pointer_index_from(v.pointers, first as int, 0);
                if i >= 0 {
                    (w, Some(BatchBufferAllocatorEvent::Write(v.pointers[i])))
                } else {
                    (w, None)
                }
            },
            Event::Clear { pointer } => (w, Some(BatchBufferAllocatorEvent::Clear(pointer))),
            Event::Reallocate { pairs } => (w, Some(BatchBufferAllocatorEvent::ReallocateAll { pairs })),
        }
    }
}

/// Number of pending ranges.
pub open spec fn pending_count(groups: Groups) -> int
    decreases groups.len(),
{
    if groups.len() == 0 {
        0
    } else {
        pending_count(groups.drop_last()) + groups.last().1.len()
    }
}

impl AllocatorView {
    pub open spec fn alloc_set(self) -> Set<BatchBufferPointer> {
        self.pointers.to_set()
    }

    pub open spec fn pend_set(self) -> Set<BatchBufferPointer> {
        pending_set(self.groups)
    }

    /// Every range, live or pending.
    pub open spec fn regions(self) -> Set<BatchBufferPointer> {
        self.alloc_set().union(self.pend_set())
    }

    pub open spec fn has_region_ending_at(self, x: int) -> bool {
        exists|s: BatchBufferPointer| #[trigger] self.regions().contains(s) && end(s) == x
    }

    /// The allocator's invariant: live and pending ranges tile `[0, len)` without
    /// overlapping, the last range is live, and the groups are well formed.
    pub open spec fn wf(self) -> bool {
        &&& forall|i: int, j: int|
            0 <= i < j < self.pointers.len() ==> end(self.pointers[i]) <= self.pointers[j].first
        &&& forall|r: BatchBufferPointer|
            #[trigger] self.regions().contains(r) ==> r.len > 0 && end(r) <= self.len
        &&& forall|r: BatchBufferPointer, s: BatchBufferPointer|
            #[trigger] self.regions().contains(r) && #[trigger] self.regions().contains(s) && r != s
                ==> disjoint(r, s)
        &&& forall|r: BatchBufferPointer|
            #[trigger] self.regions().contains(r) && r.first > 0 ==> self.has_region_ending_at(
                r.first as int,
            )
        &&& forall|r: BatchBufferPointer|
            !(#[trigger] self.alloc_set().contains(r) && self.pend_set().contains(r))
        &&& self.len == 0 ==> self.pointers.len() == 0
        &&& self.len > 0 ==> self.pointers.len() > 0 && end(self.pointers.last()) == self.len
        &&& groups_wf(self.groups)
    }
}


proof fn lemma_group_index_from(groups: Groups, size: int, i: int)
    requires
        0 <= i,
    ensures
        ({
            let r = group_index_from(groups, size, i);
            &&& r == -1 ==> forall|j: int| i <= j < groups.len() ==> groups[j].0 != size
            &&& r != -1 ==> i <= r < groups.len() && groups[r].0 == size
        }),
    decreases groups.len() - i,
{
    if i < groups.len() && groups[i].0 != size {
        lemma_group_index_from(groups, size, i + 1);
    }
}

proof fn lemma_group_index(groups: Groups, size: int)
    requires
        groups_wf(groups),
    ensures
        ({
            let r = group_index(groups, size);
            &&& r == -1 <==> forall|j: int| 0 <= j < groups.len() ==> groups[j].0 != size
            &&& r != -1 ==> 0 <= r < groups.len() && groups[r].0 == size
            &&& forall|j: int| 0 <= j < groups.len() && groups[j].0 == size ==> j == r
        }),
{
    lemma_group_index_from(groups, size, 0);
    let r = group_index(groups, size);
    assert forall|j: int| 0 <= j < groups.len() && groups[j].0 == size implies j == r by {
        if r != j {
            if r == -1 {
            } else if r < j {
                assert(groups[r].0 < groups[j].0);
            } else {
                assert(groups[j].0 < groups[r].0);
            }
        }
    }
}

proof fn lemma_first_at_least_from(groups: Groups, size: int, i: int)
    requires
        0 <= i <= groups.len(),
    ensures
        ({
            let r = first_at_least_from(groups, size, i);
            &&& i <= r <= groups.len()
            &&& forall|j: int| i <= j < r ==> groups[j].0 < size
            &&& r < groups.len() ==> groups[r].0 >= size
        }),
    decreases groups.len() - i,
{
    if i < groups.len() && groups[i].0 < size {
        lemma_first_at_least_from(groups, size, i + 1);
    }
}

proof fn lemma_seq_index_from(s: Seq<usize>, x: int, i: int)
    requires
        0 <= i,
    ensures
        ({
            let r = seq_index_from(s, x, i);
            &&& r == -1 ==> forall|j: int| i <= j < s.len() ==> s[j] != x
            &&& r != -1 ==> i <= r < s.len() && s[r] == x
        }),
    decreases s.len() - i,
{
    if i < s.len() && s[i] != x {
        lemma_seq_index_from(s, x, i + 1);
    }
}

proof fn lemma_find_pending_from(groups: Groups, x: int, g: int)
    requires
        0 <= g,
    ensures
        match find_pending_from(groups, x, g) {
            Some((g1, k1)) => g <= g1 && valid_entry(groups, g1, k1) && groups[g1].1[k1] == x,
            None => forall|g2: int, k2: int|
                g <= g2 && valid_entry(groups, g2, k2) ==> groups[g2].1[k2] != x,
        },
    decreases groups.len() - g,
{
    if g < groups.len() {
        lemma_seq_index_from(groups[g].1, x, 0);
        if seq_index_from(groups[g].1, x, 0) < 0 {
            lemma_find_pending_from(groups, x, g + 1);
        }
    }
}

proof fn lemma_find_pending(groups: Groups, x: int)
    ensures
        match find_pending(groups, x) {
            Some((g1, k1)) => valid_entry(groups, g1, k1) && groups[g1].1[k1] == x,
            None => forall|g2: int, k2: int|
                valid_entry(groups, g2, k2) ==> groups[g2].1[k2] != x,
        },
{
    lemma_find_pending_from(groups, x, 0);
}

proof fn lemma_groups_wf_intro(groups: Groups)
    requires
        forall|g: int, h: int| 0 <= g < h < groups.len() ==> groups[g].0 < groups[h].0,
        forall|g: int, k: int|
            #[trigger] valid_entry(groups, g, k) ==> 0 < groups[g].0 && groups[g].0 <= groups[g].1[k],
        forall|g: int, k: int, h: int, m: int|
            #[trigger] valid_entry(groups, g, k) && #[trigger] valid_entry(groups, h, m) && (g != h
                || k != m) ==> groups[g].1[k] != groups[h].1[m],
    ensures
        groups_wf(groups),
{
    assert(forall|g: int, h: int| 0 <= g < h < groups.len() ==> groups[g].0 < groups[h].0);
    assert(forall|g: int, k: int|
            #[trigger] valid_entry(groups, g, k) ==> 0 < groups[g].0 && groups[g].0 <= groups[g].1[k]);
    assert(forall|g: int, k: int, h: int, m: int|
            #[trigger] valid_entry(groups, g, k) && #[trigger] valid_entry(groups, h, m) && (g != h
                || k != m) ==> groups[g].1[k] != groups[h].1[m]);
}

/// Removing the range at entry `(g, k)` removes exactly that range from the pending set.
proof fn lemma_groups_remove(groups: Groups, g: int, k: int)
    requires
        groups_wf(groups),
        valid_entry(groups, g, k),
    ensures
        groups_wf(groups_remove(groups, groups[g].0, groups[g].1[k])),
        pending_set(groups_remove(groups, groups[g].0, groups[g].1[k])) == pending_set(groups).remove(
            pending_at(groups, g, k),
        ),
        forall|g2: int, k2: int|
            valid_entry(groups_remove(groups, groups[g].0, groups[g].1[k]), g2, k2) ==> exists|
                g3: int,
                k3: int,
            |
                valid_entry(groups, g3, k3) && (g3 != g || k3 != k) && groups[g3].1[k3]
                    == #[trigger] groups_remove(groups, groups[g].0, groups[g].1[k])[g2].1[k2],
{
    let size = groups[g].0;
    let last = groups[g].1[k];
    let q = pending_at(groups, g, k);
    lemma_group_index(groups, size as int);
    let gi = group_index(groups, size as int);
    assert(gi == g);
    lemma_seq_index_from(groups[g].1, last as int, 0);
    let k0 = seq_index_from(groups[g].1, last as int, 0);
    assert(k0 == k) by {
        if k0 != k {
            assert(valid_entry(groups, g, k0));
            assert(groups[g].1[k0] == groups[g].1[k]);
        }
    }
    let r = groups_remove(groups, size, last);
    if groups[g].1.len() == 1 {
        assert(r == groups.remove(g));
        assert forall|g2: int, k2: int| valid_entry(r, g2, k2) implies {
            let g3 = if g2 < g { g2 } else { g2 + 1 };
            &&& valid_entry(groups, g3, k2)
            &&& g3 != g
            &&& r[g2] == groups[g3]
        } by {}
        assert forall|g2: int, k2: int, h2: int, m2: int|
            #[trigger] valid_entry(r, g2, k2) && #[trigger] valid_entry(r, h2, m2) && (g2 != h2 || k2 != m2)
                implies r[g2].1[k2] != r[h2].1[m2] by {
            let g3 = if g2 < g { g2 } else { g2 + 1 };
            let h3 = if h2 < g { h2 } else { h2 + 1 };
            assert(r[g2] == groups[g3]);
            assert(r[h2] == groups[h3]);
            assert(valid_entry(groups, g3, k2) && valid_entry(groups, h3, m2));
            assert(groups[g3].1[k2] != groups[h3].1[m2]);
        }
        assert forall|g2: int, k2: int| #[trigger] valid_entry(r, g2, k2) implies 0 < r[g2].0 && r[g2].0 <= r[g2].1[k2] by {
            let g3 = if g2 < g { g2 } else { g2 + 1 };
            assert(r[g2] == groups[g3]);
            assert(valid_entry(groups, g3, k2));
            assert(0 < groups[g3].0 <= groups[g3].1[k2]);
        }
        assert forall|g2: int, h2: int| 0 <= g2 < h2 < r.len() implies r[g2].0 < r[h2].0 by {
            let g3 = if g2 < g { g2 } else { g2 + 1 };
            let h3 = if h2 < g { h2 } else { h2 + 1 };
            assert(groups[g3].0 < groups[h3].0);
        }
        lemma_groups_wf_intro(r);
        assert forall|g2: int, k2: int| valid_entry(r, g2, k2) implies exists|g3: int, k3: int|
            valid_entry(groups, g3, k3) && (g3 != g || k3 != k) && groups[g3].1[k3]
                == #[trigger] r[g2].1[k2] by {
            let g3 = if g2 < g { g2 } else { g2 + 1 };
            assert(r[g2] == groups[g3]);
            assert(valid_entry(groups, g3, k2) && (g3 != g || k2 != k) && groups[g3].1[k2] == r[g2].1[k2]);
        }
        assert(pending_set(r) =~= pending_set(groups).remove(q)) by {
            assert forall|p: BatchBufferPointer| pending_set(r).contains(p) implies pending_set(groups).remove(q).contains(p) by {
                let (g2, k2) = choose|g2: int, k2: int| valid_entry(r, g2, k2) && #[trigger] pending_at(r, g2, k2) == p;
                let g3 = if g2 < g { g2 } else { g2 + 1 };
                assert(r[g2] == groups[g3]);
                assert(pending_at(groups, g3, k2) == p);
                assert(valid_entry(groups, g3, k2));
                assert(groups[g3].1[k2] != groups[g].1[k]);
            }
            assert forall|p: BatchBufferPointer| pending_set(groups).remove(q).contains(p) implies pending_set(r).contains(p) by {
                let (g3, k3) = choose|g3: int, k3: int| valid_entry(groups, g3, k3) && #[trigger] pending_at(groups, g3, k3) == p;
                assert(g3 != g);
                let g2 = if g3 < g { g3 } else { g3 - 1 };
                assert(r[g2] == groups[g3]);
                assert(pending_at(r, g2, k3) == p);
            }
        }
    } else {
        let l2 = groups[g].1.remove(k);
        assert(r == groups.update(g, (size, l2)));
        assert forall|g2: int, k2: int| valid_entry(r, g2, k2) implies {
            let k3 = if g2 == g && k2 >= k { k2 + 1 } else { k2 };
            &&& valid_entry(groups, g2, k3)
            &&& (g2 != g || k3 != k)
            &&& r[g2].1[k2] == groups[g2].1[k3]
            &&& r[g2].0 == groups[g2].0
        } by {}
        assert(groups_wf(r)) by {
            assert forall|g2: int, k2: int, h2: int, m2: int|
                #[trigger] valid_entry(r, g2, k2) && #[trigger] valid_entry(r, h2, m2) && (g2 != h2 || k2 != m2)
                    implies r[g2].1[k2] != r[h2].1[m2] by {
                let k3 = if g2 == g && k2 >= k { k2 + 1 } else { k2 };
                let m3 = if h2 == g && m2 >= k { m2 + 1 } else { m2 };
                assert(valid_entry(groups, g2, k3) && valid_entry(groups, h2, m3));
                assert(groups[g2].1[k3] != groups[h2].1[m3]);
            }
            assert forall|g2: int, k2: int| #[trigger] valid_entry(r, g2, k2) implies 0 < r[g2].0 && r[g2].0 <= r[g2].1[k2] by {
                let k3 = if g2 == g && k2 >= k { k2 + 1 } else { k2 };
                assert(valid_entry(groups, g2, k3));
            }
            assert forall|g2: int, h2: int| 0 <= g2 < h2 < r.len() implies r[g2].0 < r[h2].0 by {
                assert(groups[g2].0 < groups[h2].0);
            }
        }
        assert forall|g2: int, k2: int| valid_entry(r, g2, k2) implies exists|g3: int, k3: int|
            valid_entry(groups, g3, k3) && (g3 != g || k3 != k) && groups[g3].1[k3]
                == #[trigger] r[g2].1[k2] by {
            let k3 = if g2 == g && k2 >= k { k2 + 1 } else { k2 };
            assert(valid_entry(groups, g2, k3) && (g2 != g || k3 != k) && groups[g2].1[k3] == r[g2].1[k2]);
        }
        assert(pending_set(r) =~= pending_set(groups).remove(q)) by {
            assert forall|p: BatchBufferPointer| pending_set(r).contains(p) implies pending_set(groups).remove(q).contains(p) by {
                let (g2, k2) = choose|g2: int, k2: int| valid_entry(r, g2, k2) && #[trigger] pending_at(r, g2, k2) == p;
                let k3 = if g2 == g && k2 >= k { k2 + 1 } else { k2 };
                assert(pending_at(groups, g2, k3) == p);
                assert(valid_entry(groups, g2, k3));
                assert(groups[g2].1[k3] != groups[g].1[k]);
            }
            assert forall|p: BatchBufferPointer| pending_set(groups).remove(q).contains(p) implies pending_set(r).contains(p) by {
                let (g3, k3) = choose|g3: int, k3: int| valid_entry(groups, g3, k3) && #[trigger] pending_at(groups, g3, k3) == p;
                assert(g3 != g || k3 != k);
                let k2 = if g3 == g && k3 > k { k3 - 1 } else { k3 };
                assert(valid_entry(r, g3, k2));
                assert(r[g3].1[k2] == groups[g3].1[k3]);
                assert(pending_at(r, g3, k2) == p);
            }
        }
    }
}

/// Taking the first range of a group out removes exactly that range from the pending set.
proof fn lemma_groups_pop_front(groups: Groups, g: int)
    requires
        groups_wf(groups),
        0 <= g < groups.len(),
        groups[g].1.len() > 0,
    ensures
        groups_wf(groups_pop_front(groups, g)),
        pending_set(groups_pop_front(groups, g)) == pending_set(groups).remove(pending_at(groups, g, 0)),
        forall|g2: int, k2: int|
            valid_entry(groups_pop_front(groups, g), g2, k2) ==> exists|g3: int, k3: int|
                valid_entry(groups, g3, k3) && (g3 != g || k3 != 0) && groups[g3].1[k3]
                    == #[trigger] groups_pop_front(groups, g)[g2].1[k2],
{
    let r = groups_pop_front(groups, g);
    let q = pending_at(groups, g, 0);
    assert forall|g2: int, k2: int| valid_entry(r, g2, k2) implies {
        let k3 = if g2 == g { k2 + 1 } else { k2 };
        &&& valid_entry(groups, g2, k3)
        &&& (g2 != g || k3 != 0)
        &&& r[g2].1[k2] == groups[g2].1[k3]
        &&& r[g2].0 == groups[g2].0
    } by {}
    assert(groups_wf(r)) by {
        assert forall|g2: int, k2: int, h2: int, m2: int|
            #[trigger] valid_entry(r, g2, k2) && #[trigger] valid_entry(r, h2, m2) && (g2 != h2 || k2 != m2)
                implies r[g2].1[k2] != r[h2].1[m2] by {
            let k3 = if g2 == g { k2 + 1 } else { k2 };
            let m3 = if h2 == g { m2 + 1 } else { m2 };
            assert(valid_entry(groups, g2, k3) && valid_entry(groups, h2, m3));
            assert(groups[g2].1[k3] != groups[h2].1[m3]);
        }
        assert forall|g2: int, k2: int| #[trigger] valid_entry(r, g2, k2) implies 0 < r[g2].0 && r[g2].0 <= r[g2].1[k2] by {
            let k3 = if g2 == g { k2 + 1 } else { k2 };
            assert(valid_entry(groups, g2, k3));
        }
        assert forall|g2: int, h2: int| 0 <= g2 < h2 < r.len() implies r[g2].0 < r[h2].0 by {
            assert(groups[g2].0 < groups[h2].0);
        }
    }
    assert forall|g2: int, k2: int| valid_entry(r, g2, k2) implies exists|g3: int, k3: int|
        valid_entry(groups, g3, k3) && (g3 != g || k3 != 0) && groups[g3].1[k3]
            == #[trigger] r[g2].1[k2] by {
        let k3 = if g2 == g { k2 + 1 } else { k2 };
        assert(valid_entry(groups, g2, k3) && (g2 != g || k3 != 0) && groups[g2].1[k3] == r[g2].1[k2]);
    }
    assert(pending_set(r) =~= pending_set(groups).remove(q)) by {
        assert forall|p: BatchBufferPointer| pending_set(r).contains(p) implies pending_set(groups).remove(q).contains(p) by {
            let (g2, k2) = choose|g2: int, k2: int| valid_entry(r, g2, k2) && #[trigger] pending_at(r, g2, k2) == p;
            let k3 = if g2 == g { k2 + 1 } else { k2 };
            assert(pending_at(groups, g2, k3) == p);
            assert(valid_entry(groups, g2, k3));
            assert(valid_entry(groups, g, 0));
            assert(groups[g2].1[k3] != groups[g].1[0]);
        }
        assert forall|p: BatchBufferPointer| pending_set(groups).remove(q).contains(p) implies pending_set(r).contains(p) by {
            let (g3, k3) = choose|g3: int, k3: int| valid_entry(groups, g3, k3) && #[trigger] pending_at(groups, g3, k3) == p;
            assert(g3 != g || k3 != 0);
            let k2 = if g3 == g { k3 - 1 } else { k3 };
            assert(valid_entry(r, g3, k2));
            assert(r[g3].1[k2] == groups[g3].1[k3]);
            assert(pending_at(r, g3, k2) == p);
        }
    }
}

/// Adding a range whose end is new adds exactly that range to the pending set.
proof fn lemma_groups_push_front(groups: Groups, size: usize, last: usize)
    requires
        groups_wf(groups),
        0 < size <= last,
        forall|g: int, k: int| valid_entry(groups, g, k) ==> groups[g].1[k] != last,
    ensures
        groups_wf(groups_push_front(groups, size, last)),
        pending_set(groups_push_front(groups, size, last)) == pending_set(groups).insert(
            BatchBufferPointer { first: (last - size) as usize, len: size },
        ),
        forall|g2: int, k2: int|
            valid_entry(groups_push_front(groups, size, last), g2, k2) ==> (
            #[trigger] groups_push_front(groups, size, last)[g2].1[k2] == last || exists|g3: int, k3: int|
                valid_entry(groups, g3, k3) && groups[g3].1[k3]
                    == groups_push_front(groups, size, last)[g2].1[k2]),
{
    let r = groups_push_front(groups, size, last);
    let q = BatchBufferPointer { first: (last - size) as usize, len: size };
    lemma_group_index(groups, size as int);
    let gi = group_index(groups, size as int);
    if gi >= 0 {
        assert(r == groups.update(gi, (size, seq![last] + groups[gi].1)));
        assert forall|g2: int, k2: int| valid_entry(r, g2, k2) && !(g2 == gi && k2 == 0) implies {
            let k3 = if g2 == gi { k2 - 1 } else { k2 };
            &&& valid_entry(groups, g2, k3)
            &&& r[g2].1[k2] == groups[g2].1[k3]
            &&& r[g2].0 == groups[g2].0
        } by {}
        assert(groups_wf(r)) by {
            assert forall|g2: int, k2: int, h2: int, m2: int|
                #[trigger] valid_entry(r, g2, k2) && #[trigger] valid_entry(r, h2, m2) && (g2 != h2 || k2 != m2)
                    implies r[g2].1[k2] != r[h2].1[m2] by {
                let k3 = if g2 == gi { k2 - 1 } else { k2 };
                let m3 = if h2 == gi { m2 - 1 } else { m2 };
                if g2 == gi && k2 == 0 {
                    assert(valid_entry(groups, h2, m3));
                } else if h2 == gi && m2 == 0 {
                    assert(valid_entry(groups, g2, k3));
                } else {
                    assert(valid_entry(groups, g2, k3) && valid_entry(groups, h2, m3));
                    assert(groups[g2].1[k3] != groups[h2].1[m3]);
                }
            }
            assert forall|g2: int, k2: int| #[trigger] valid_entry(r, g2, k2) implies 0 < r[g2].0 && r[g2].0 <= r[g2].1[k2] by {
                if !(g2 == gi && k2 == 0) {
                    let k3 = if g2 == gi { k2 - 1 } else { k2 };
                    assert(valid_entry(groups, g2, k3));
                }
            }
            assert forall|g2: int, h2: int| 0 <= g2 < h2 < r.len() implies r[g2].0 < r[h2].0 by {
                assert(groups[g2].0 < groups[h2].0);
            }
        }
        assert forall|g2: int, k2: int| valid_entry(r, g2, k2) implies (
            #[trigger] r[g2].1[k2] == last || exists|g3: int, k3: int|
                valid_entry(groups, g3, k3) && groups[g3].1[k3] == r[g2].1[k2]) by {
            if !(g2 == gi && k2 == 0) {
                let k3 = if g2 == gi { k2 - 1 } else { k2 };
                assert(valid_entry(groups, g2, k3) && groups[g2].1[k3] == r[g2].1[k2]);
            }
        }
        assert(pending_set(r) =~= pending_set(groups).insert(q)) by {
            assert forall|p: BatchBufferPointer| pending_set(r).contains(p) implies pending_set(groups).insert(q).contains(p) by {
                let (g2, k2) = choose|g2: int, k2: int| valid_entry(r, g2, k2) && #[trigger] pending_at(r, g2, k2) == p;
                if !(g2 == gi && k2 == 0) {
                    let k3 = if g2 == gi { k2 - 1 } else { k2 };
                    assert(pending_at(groups, g2, k3) == p);
                    assert(valid_entry(groups, g2, k3));
                }
            }
            assert forall|p: BatchBufferPointer| pending_set(groups).insert(q).contains(p) implies pending_set(r).contains(p) by {
                if p == q {
                    assert(pending_at(r, gi, 0) == q);
                    assert(valid_entry(r, gi, 0));
                } else {
                    let (g3, k3) = choose|g3: int, k3: int| valid_entry(groups, g3, k3) && #[trigger] pending_at(groups, g3, k3) == p;
                    let k2 = if g3 == gi { k3 + 1 } else { k3 };
                    assert(valid_entry(r, g3, k2));
                    assert(r[g3].1[k2] == groups[g3].1[k3]);
                    assert(pending_at(r, g3, k2) == p);
                }
            }
        }
    } else {
        lemma_first_at_least_from(groups, size as int, 0);
        let pos = first_at_least(groups, size as int);
        assert(r == groups.insert(pos, (size, seq![last])));
        assert forall|g2: int, k2: int| valid_entry(r, g2, k2) && g2 != pos implies {
            let g3 = if g2 < pos { g2 } else { g2 - 1 };
            &&& valid_entry(groups, g3, k2)
            &&& r[g2] == groups[g3]
        } by {}
        assert(groups_wf(r)) by {
            assert forall|g2: int, k2: int, h2: int, m2: int|
                #[trigger] valid_entry(r, g2, k2) && #[trigger] valid_entry(r, h2, m2) && (g2 != h2 || k2 != m2)
                    implies r[g2].1[k2] != r[h2].1[m2] by {
                let g3 = if g2 < pos { g2 } else { g2 - 1 };
                let h3 = if h2 < pos { h2 } else { h2 - 1 };
                if g2 == pos {
                    assert(valid_entry(groups, h3, m2));
                } else if h2 == pos {
                    assert(valid_entry(groups, g3, k2));
                } else {
                    assert(valid_entry(groups, g3, k2) && valid_entry(groups, h3, m2));
                    assert(groups[g3].1[k2] != groups[h3].1[m2]);
                }
            }
            assert forall|g2: int, k2: int| #[trigger] valid_entry(r, g2, k2) implies 0 < r[g2].0 && r[g2].0 <= r[g2].1[k2] by {
                if g2 != pos {
                    let g3 = if g2 < pos { g2 } else { g2 - 1 };
                    assert(valid_entry(groups, g3, k2));
                }
            }
            assert forall|g2: int, h2: int| 0 <= g2 < h2 < r.len() implies r[g2].0 < r[h2].0 by {
                let g3 = if g2 < pos { g2 } else { g2 - 1 };
                let h3 = if h2 < pos { h2 } else { h2 - 1 };
                if g2 == pos {
                    assert(groups[h3].0 != size);
                    assert(groups[h3].0 >= size);
                } else if h2 == pos {
                    assert(groups[g3].0 < size);
                } else {
                    assert(groups[g3].0 < groups[h3].0);
                }
            }
        }
        assert forall|g2: int, k2: int| valid_entry(r, g2, k2) implies (
            #[trigger] r[g2].1[k2] == last || exists|g3: int, k3: int|
                valid_entry(groups, g3, k3) && groups[g3].1[k3] == r[g2].1[k2]) by {
            if g2 != pos {
                let g3 = if g2 < pos { g2 } else { g2 - 1 };
                assert(valid_entry(groups, g3, k2) && groups[g3].1[k2] == r[g2].1[k2]);
            }
        }
        assert(pending_set(r) =~= pending_set(groups).insert(q)) by {
            assert forall|p: BatchBufferPointer| pending_set(r).contains(p) implies pending_set(groups).insert(q).contains(p) by {
                let (g2, k2) = choose|g2: int, k2: int| valid_entry(r, g2, k2) && #[trigger] pending_at(r, g2, k2) == p;
                if g2 != pos {
                    let g3 = if g2 < pos { g2 } else { g2 - 1 };
                    assert(pending_at(groups, g3, k2) == p);
                    assert(valid_entry(groups, g3, k2));
                }
            }
            assert forall|p: BatchBufferPointer| pending_set(groups).insert(q).contains(p) implies pending_set(r).contains(p) by {
                if p == q {
                    assert(pending_at(r, pos, 0) == q);
                    assert(valid_entry(r, pos, 0));
                } else {
                    let (g3, k3) = choose|g3: int, k3: int| valid_entry(groups, g3, k3) && #[trigger] pending_at(groups, g3, k3) == p;
                    let g2 = if g3 < pos { g3 } else { g3 + 1 };
                    assert(valid_entry(r, g2, k3));
                    assert(r[g2] == groups[g3]);
                    assert(pending_at(r, g2, k3) == p);
                }
            }
        }
    }
}


proof fn lemma_to_set_push(s: Seq<BatchBufferPointer>, p: BatchBufferPointer)
    ensures
        s.push(p).to_set() == s.to_set().insert(p),
{
    assert(s.push(p).to_set() =~= s.to_set().insert(p)) by {
        assert forall|x: BatchBufferPointer| s.push(p).to_set().contains(x) implies s.to_set().insert(p).contains(x) by {
            let i = choose|i: int| 0 <= i < s.push(p).len() && s.push(p)[i] == x;
            if i < s.len() {
                assert(s[i] == x);
            }
        }
        assert forall|x: BatchBufferPointer| s.to_set().insert(p).contains(x) implies s.push(p).to_set().contains(x) by {
            if x == p {
                assert(s.push(p)[s.len() as int] == x);
            } else {
                let i = choose|i: int| 0 <= i < s.len() && s[i] == x;
                assert(s.push(p)[i] == x);
            }
        }
    }
}

proof fn lemma_to_set_insert(s: Seq<BatchBufferPointer>, pos: int, p: BatchBufferPointer)
    requires
        0 <= pos <= s.len(),
    ensures
        s.insert(pos, p).to_set() == s.to_set().insert(p),
{
    let t = s.insert(pos, p);
    assert(t.to_set() =~= s.to_set().insert(p)) by {
        assert forall|x: BatchBufferPointer| t.to_set().contains(x) implies s.to_set().insert(p).contains(x) by {
            let i = choose|i: int| 0 <= i < t.len() && t[i] == x;
            if i < pos {
                assert(s[i] == x);
            } else if i > pos {
                assert(s[i - 1] == x);
            }
        }
        assert forall|x: BatchBufferPointer| s.to_set().insert(p).contains(x) implies t.to_set().contains(x) by {
            if x == p {
                assert(t[pos] == x);
            } else {
                let i = choose|i: int| 0 <= i < s.len() && s[i] == x;
                if i < pos {
                    assert(t[i] == x);
                } else {
                    assert(t[i + 1] == x);
                }
            }
        }
    }
}

proof fn lemma_to_set_remove(s: Seq<BatchBufferPointer>, idx: int)
    requires
        0 <= idx < s.len(),
        forall|j: int| 0 <= j < s.len() && j != idx ==> s[j] != s[idx],
    ensures
        s.remove(idx).to_set() == s.to_set().remove(s[idx]),
{
    let t = s.remove(idx);
    assert(t.to_set() =~= s.to_set().remove(s[idx])) by {
        assert forall|x: BatchBufferPointer| t.to_set().contains(x) implies s.to_set().remove(s[idx]).contains(x) by {
            let i = choose|i: int| 0 <= i < t.len() && t[i] == x;
            if i < idx {
                assert(s[i] == x);
            } else {
                assert(s[i + 1] == x);
            }
        }
        assert forall|x: BatchBufferPointer| s.to_set().remove(s[idx]).contains(x) implies t.to_set().contains(x) by {
            let i = choose|i: int| 0 <= i < s.len() && s[i] == x;
            assert(i != idx);
            if i < idx {
                assert(t[i] == x);
            } else {
                assert(t[i - 1] == x);
            }
        }
    }
}

pub(crate) proof fn lemma_pointer_index_from(s: Seq<BatchBufferPointer>, first: int, i: int)
    requires
        0 <= i,
    ensures
        ({
            let r = pointer_index_from(s, first, i);
            &&& r == -1 ==> forall|j: int| i <= j < s.len() ==> s[j].first != first
            &&& r != -1 ==> i <= r < s.len() && s[r].first == first
        }),
    decreases s.len() - i,
{
    if i < s.len() && s[i].first != first {
        lemma_pointer_index_from(s, first, i + 1);
    }
}

proof fn lemma_insert_index_from(s: Seq<BatchBufferPointer>, first: int, i: int)
    requires
        0 <= i <= s.len(),
    ensures
        ({
            let r = insert_index_from(s, first, i);
            &&& i <= r <= s.len()
            &&& forall|j: int| i <= j < r ==> s[j].first <= first
            &&& r < s.len() ==> s[r].first > first
        }),
    decreases s.len() - i,
{
    if i < s.len() && s[i].first <= first {
        lemma_insert_index_from(s, first, i + 1);
    }
}

/// A region of the old state that is not the pending range `q` is still a region of
/// a state whose pending set only lost `q`.
proof fn lemma_wf_regions_basic(v: AllocatorView)
    requires
        v.wf(),
    ensures
        forall|i: int| 0 <= i < v.pointers.len() ==> #[trigger] v.regions().contains(v.pointers[i]),
        forall|g: int, k: int| valid_entry(v.groups, g, k) ==> #[trigger] v.regions().contains(pending_at(v.groups, g, k)),
        forall|i: int, j: int| 0 <= i < v.pointers.len() && 0 <= j < v.pointers.len() && i != j ==> v.pointers[i] != v.pointers[j],
{
    assert forall|i: int| 0 <= i < v.pointers.len() implies #[trigger] v.regions().contains(v.pointers[i]) by {
        assert(v.pointers.to_set().contains(v.pointers[i]));
    }
    assert forall|g: int, k: int| valid_entry(v.groups, g, k) implies #[trigger] v.regions().contains(pending_at(v.groups, g, k)) by {
        assert(is_pending(v.groups, pending_at(v.groups, g, k)));
    }
    assert forall|i: int, j: int| 0 <= i < v.pointers.len() && 0 <= j < v.pointers.len() && i != j implies v.pointers[i] != v.pointers[j] by {
        if i < j {
            assert(end(v.pointers[i]) <= v.pointers[j].first);
        } else {
            assert(end(v.pointers[j]) <= v.pointers[i].first);
        }
        assert(v.regions().contains(v.pointers[i]));
    }
}

proof fn lemma_allocate_at_end(v: AllocatorView, n: usize)
    requires
        v.wf(),
        n > 0,
        v.len + n <= usize::MAX,
        !allocates_in_place(v, n as int),
    ensures
        spec_allocate(v, n).0.wf(),
        spec_allocate(v, n).0.regions() == v.regions().insert(spec_allocate(v, n).1),
{
    let (w, p) = spec_allocate(v, n);
    lemma_wf_regions_basic(v);
    lemma_to_set_push(v.pointers, p);
    assert(w.alloc_set() == v.alloc_set().insert(p));
    assert(w.pend_set() == v.pend_set());
    assert(w.regions() =~= v.regions().insert(p));
    assert forall|r: BatchBufferPointer| #[trigger] v.regions().contains(r) implies end(r) <= v.len && r != p && disjoint(r, p) by {}
    assert forall|i: int, j: int| 0 <= i < j < w.pointers.len() implies end(w.pointers[i]) <= w.pointers[j].first by {
        if j == v.pointers.len() {
            assert(v.regions().contains(v.pointers[i]));
        }
    }
    assert forall|r: BatchBufferPointer| #[trigger] w.regions().contains(r) && r.first > 0 implies w.has_region_ending_at(r.first as int) by {
        if r == p {
            assert(w.regions().contains(v.pointers.last()));
        } else {
            assert(v.has_region_ending_at(r.first as int));
            let s = choose|s: BatchBufferPointer| #[trigger] v.regions().contains(s) && end(s) == r.first;
            assert(w.regions().contains(s));
        }
    }
    assert forall|r: BatchBufferPointer| !(#[trigger] w.alloc_set().contains(r) && w.pend_set().contains(r)) by {
        if r == p && w.pend_set().contains(r) {
            assert(v.regions().contains(r));
        }
    }
    assert(w.pointers.last() == p);
}

/// The pieces of an allocation that reuses the pending range `q` at the front of group `gi`.
proof fn lemma_allocate_in_place_sets(v: AllocatorView, n: usize)
    requires
        v.wf(),
        n > 0,
        allocates_in_place(v, n as int),
    ensures
        ({
            let (w, p) = spec_allocate(v, n);
            let gi = first_at_least(v.groups, n as int);
            let q = pending_at(v.groups, gi, 0);
            let m = BatchBufferPointer { first: (q.first + n) as usize, len: (q.len - n) as usize };
            &&& valid_entry(v.groups, gi, 0)
            &&& v.regions().contains(q)
            &&& !v.alloc_set().contains(q)
            &&& p.first == q.first && p.len == n && q.len >= n
            &&& end(q) == v.groups[gi].1[0]
            &&& groups_wf(w.groups)
            &&& w.alloc_set() == v.alloc_set().insert(p)
            &&& q.len != n ==> w.pend_set() == v.pend_set().remove(q).insert(m)
            &&& q.len == n ==> w.pend_set() == v.pend_set().remove(q)
            &&& w.pointers == v.pointers.insert(insert_index_from(v.pointers, p.first as int, 0), p)
            &&& w.len == v.len
        }),
{
    let (w, p) = spec_allocate(v, n);
    let gi = first_at_least(v.groups, n as int);
    lemma_first_at_least_from(v.groups, n as int, 0);
    let size = v.groups[gi].0;
    let last = v.groups[gi].1[0];
    let q = pending_at(v.groups, gi, 0);
    assert(valid_entry(v.groups, gi, 0));
    lemma_wf_regions_basic(v);
    let g1 = groups_pop_front(v.groups, gi);
    lemma_groups_pop_front(v.groups, gi);
    let m = BatchBufferPointer { first: (q.first + n) as usize, len: (size - n) as usize };
    if size != n {
        assert forall|g: int, k: int| valid_entry(g1, g, k) implies g1[g].1[k] != last by {
            let (g3, k3) = choose|g3: int, k3: int| valid_entry(v.groups, g3, k3) && (g3 != gi || k3 != 0) && v.groups[g3].1[k3] == #[trigger] g1[g].1[k];
            assert(valid_entry(v.groups, gi, 0));
        }
        lemma_groups_push_front(g1, (size - n) as usize, last);
    }
    let pos = insert_index_from(v.pointers, p.first as int, 0);
    lemma_insert_index_from(v.pointers, p.first as int, 0);
    lemma_to_set_insert(v.pointers, pos, p);
    assert(v.pend_set().contains(q));
}

proof fn lemma_allocate_in_place_sorted(v: AllocatorView, n: usize)
    requires
        v.wf(),
        n > 0,
        allocates_in_place(v, n as int),
    ensures
        ({
            let (w, p) = spec_allocate(v, n);
            &&& forall|i: int, j: int| 0 <= i < j < w.pointers.len() ==> end(w.pointers[i]) <= w.pointers[j].first
            &&& w.pointers.len() > 0 && w.pointers.last() == v.pointers.last()
        }),
{
    let (w, p) = spec_allocate(v, n);
    lemma_allocate_in_place_sets(v, n);
    let gi = first_at_least(v.groups, n as int);
    let q = pending_at(v.groups, gi, 0);
    lemma_wf_regions_basic(v);
    let pos = insert_index_from(v.pointers, p.first as int, 0);
    lemma_insert_index_from(v.pointers, p.first as int, 0);
    assert forall|i: int, j: int| 0 <= i < j < w.pointers.len() implies end(w.pointers[i]) <= w.pointers[j].first by {
        if i == pos {
            assert(w.pointers[j] == v.pointers[j - 1]);
            assert(v.regions().contains(v.pointers[j - 1]));
            assert(disjoint(v.pointers[j - 1], q));
        } else if j == pos {
            assert(w.pointers[i] == v.pointers[i]);
            assert(v.regions().contains(v.pointers[i]));
            assert(disjoint(v.pointers[i], q));
        } else {
            let i0 = if i < pos { i } else { i - 1 };
            let j0 = if j < pos { j } else { j - 1 };
            assert(w.pointers[i] == v.pointers[i0]);
            assert(w.pointers[j] == v.pointers[j0]);
        }
    }
    assert(v.len > 0);
    assert(v.regions().contains(v.pointers.last()));
    assert(disjoint(v.pointers.last(), q));
    assert(pos < v.pointers.len()) by {
        if pos == v.pointers.len() {
            assert(v.pointers.last().first <= p.first);
        }
    }
    assert(w.pointers.last() == v.pointers.last());
}

#[verifier::spinoff_prover]
proof fn lemma_allocate_in_place(v: AllocatorView, n: usize)
    requires
        v.wf(),
        n > 0,
        allocates_in_place(v, n as int),
    ensures
        spec_allocate(v, n).0.wf(),
{
    let (w, p) = spec_allocate(v, n);
    lemma_allocate_in_place_sets(v, n);
    lemma_allocate_in_place_sorted(v, n);
    let gi = first_at_least(v.groups, n as int);
    let q = pending_at(v.groups, gi, 0);
    let size = q.len;
    let m = BatchBufferPointer { first: (q.first + n) as usize, len: (size - n) as usize };
    assert forall|r: BatchBufferPointer| #[trigger] v.regions().contains(r) && r != q implies disjoint(r, p) && disjoint(r, m) && r != p && r != m by {
        assert(disjoint(r, q));
    }
    assert(w.regions() =~= if size != n { v.regions().remove(q).insert(p).insert(m) } else { v.regions().remove(q).insert(p) });
    assert forall|r: BatchBufferPointer| #[trigger] w.regions().contains(r) implies r.len > 0 && end(r) <= w.len by {}
    assert forall|r: BatchBufferPointer, t: BatchBufferPointer| #[trigger] w.regions().contains(r) && #[trigger] w.regions().contains(t) && r != t implies disjoint(r, t) by {}
    assert forall|r: BatchBufferPointer| #[trigger] w.regions().contains(r) && r.first > 0 implies w.has_region_ending_at(r.first as int) by {
        if r == p {
            assert(v.has_region_ending_at(q.first as int));
            let s = choose|s: BatchBufferPointer| #[trigger] v.regions().contains(s) && end(s) == q.first;
            assert(w.regions().contains(s));
        } else if size != n && r == m {
            assert(w.regions().contains(p));
        } else {
            assert(v.has_region_ending_at(r.first as int));
            let s = choose|s: BatchBufferPointer| #[trigger] v.regions().contains(s) && end(s) == r.first;
            if s == q {
                if size != n {
                    assert(w.regions().contains(m));
                } else {
                    assert(w.regions().contains(p));
                }
            } else {
                assert(w.regions().contains(s));
            }
        }
    }
    assert forall|r: BatchBufferPointer| !(#[trigger] w.alloc_set().contains(r) && w.pend_set().contains(r)) by {
        if w.alloc_set().contains(r) && w.pend_set().contains(r) {
            assert(p != m);
            if r == p {
                assert(v.pend_set().contains(r) && r != q);
                assert(v.regions().contains(r));
            } else if size != n && r == m {
                assert(v.alloc_set().contains(r));
                assert(v.regions().contains(r));
                assert(r != q);
            } else {
                assert(v.alloc_set().contains(r) && v.pend_set().contains(r));
            }
        }
    }
}

/// What holds while the chain of pending ranges below the freed range `p` is taken
/// out: `gc` are the groups left so far and `seek` the start of the part taken.
pub open spec fn chain_inv(v: AllocatorView, p: BatchBufferPointer, gc: Groups, seek: int) -> bool {
    let span = BatchBufferPointer { first: seek as usize, len: (end(p) - seek) as usize };
    &&& groups_wf(gc)
    &&& pending_set(gc).subset_of(v.pend_set())
    &&& forall|s: BatchBufferPointer|
        #[trigger] v.pend_set().contains(s) && !pending_set(gc).contains(s) ==> seek <= s.first
            && end(s) <= p.first
    &&& forall|s: BatchBufferPointer|
        (#[trigger] pending_set(gc).contains(s) || (v.alloc_set().contains(s) && s != p))
            ==> disjoint(s, span)
    &&& 0 <= seek <= p.first
    &&& seek > 0 ==> exists|s: BatchBufferPointer|
        (#[trigger] v.alloc_set().contains(s) || pending_set(gc).contains(s)) && end(s) == seek
}

proof fn lemma_pending_set_ends(groups: Groups, x: int)
    requires
        groups_wf(groups),
        find_pending(groups, x) is None,
    ensures
        forall|s: BatchBufferPointer| #[trigger] pending_set(groups).contains(s) ==> end(s) != x,
{
    lemma_find_pending(groups, x);
    assert forall|s: BatchBufferPointer| #[trigger] pending_set(groups).contains(s) implies end(s) != x by {
        let (g, k) = choose|g: int, k: int| valid_entry(groups, g, k) && #[trigger] pending_at(groups, g, k) == s;
        assert(groups[g].1[k] != x);
        assert(valid_entry(groups, g, k));
        assert(end(s) == groups[g].1[k]);
    }
}

#[verifier::spinoff_prover]
proof fn lemma_chain_step(v: AllocatorView, p: BatchBufferPointer, gc: Groups, seek: int)
    requires
        v.wf(),
        v.alloc_set().contains(p),
        chain_inv(v, p, gc, seek),
        find_pending(gc, seek) is Some,
    ensures
        ({
            let (g, k) = find_pending(gc, seek)->0;
            &&& valid_entry(gc, g, k)
            &&& 0 < gc[g].0 <= seek
            &&& chain_inv(v, p, groups_remove(gc, gc[g].0, seek as usize), seek - gc[g].0)
        }),
{
    let (g, k) = find_pending(gc, seek)->0;
    lemma_find_pending(gc, seek);
    assert(valid_entry(gc, g, k));
    let size = gc[g].0;
    let c = pending_at(gc, g, k);
    lemma_groups_remove(gc, g, k);
    let g2 = groups_remove(gc, size, seek as usize);
    let seek2 = seek - size;
    assert(pending_set(gc).contains(c)) by {
        assert(is_pending(gc, c));
    }
    assert(v.pend_set().contains(c));
    assert(v.regions().contains(c));
    assert(end(c) == seek);
    assert(pending_set(g2) == pending_set(gc).remove(c));
    assert forall|s: BatchBufferPointer|
        #[trigger] v.pend_set().contains(s) && !pending_set(g2).contains(s) implies seek2 <= s.first
            && end(s) <= p.first by {
        if s != c {
            assert(!pending_set(gc).contains(s));
        }
    }
    let span = BatchBufferPointer { first: seek as usize, len: (end(p) - seek) as usize };
    assert forall|s: BatchBufferPointer|
        (#[trigger] pending_set(g2).contains(s) || (v.alloc_set().contains(s) && s != p))
            implies disjoint(s, BatchBufferPointer { first: seek2 as usize, len: (end(p) - seek2) as usize }) by {
        assert(disjoint(s, span));
        assert(v.regions().contains(s));
        assert(s != c) by {
            if v.alloc_set().contains(s) {
                assert(!v.pend_set().contains(s));
            }
        }
        assert(disjoint(s, c));
    }
    if seek2 > 0 {
        assert(v.has_region_ending_at(c.first as int));
        let s = choose|s: BatchBufferPointer| #[trigger] v.regions().contains(s) && end(s) == c.first;
        assert(v.alloc_set().contains(s) || pending_set(g2).contains(s)) by {
            if !v.alloc_set().contains(s) {
                assert(v.pend_set().contains(s));
                assert(v.regions().contains(s));
            }
        }
    }
}

proof fn lemma_free_chain(v: AllocatorView, p: BatchBufferPointer, gc: Groups, seek: int)
    requires
        v.wf(),
        v.alloc_set().contains(p),
        chain_inv(v, p, gc, seek),
    ensures
        chain_inv(v, p, free_chain(gc, seek).0, free_chain(gc, seek).1),
        find_pending(free_chain(gc, seek).0, free_chain(gc, seek).1) is None,
    decreases seek,
{
    if find_pending(gc, seek) is Some {
        lemma_chain_step(v, p, gc, seek);
        let (g, k) = find_pending(gc, seek)->0;
        lemma_free_chain(v, p, groups_remove(gc, gc[g].0, seek as usize), seek - gc[g].0);
    }
}

proof fn lemma_chain_start(v: AllocatorView, p: BatchBufferPointer)
    requires
        v.wf(),
        v.alloc_set().contains(p),
    ensures
        chain_inv(v, p, v.groups, p.first as int),
{
    lemma_wf_regions_basic(v);
    assert(v.regions().contains(p));
    assert forall|s: BatchBufferPointer|
        (#[trigger] pending_set(v.groups).contains(s) || (v.alloc_set().contains(s) && s != p))
            implies disjoint(s, BatchBufferPointer { first: p.first, len: p.len }) by {
        assert(v.regions().contains(s));
        if pending_set(v.groups).contains(s) {
            assert(s != p);
        }
    }
    if p.first > 0 {
        assert(v.has_region_ending_at(p.first as int));
        let s = choose|s: BatchBufferPointer| #[trigger] v.regions().contains(s) && end(s) == p.first;
        assert(v.alloc_set().contains(s) || pending_set(v.groups).contains(s));
    }
}

#[verifier::spinoff_prover]
proof fn lemma_free_common(v: AllocatorView, p: BatchBufferPointer)
    requires
        v.wf(),
        v.pointers.contains(p),
    ensures
        ({
            let w = spec_free(v, p);
            let idx = pointer_index_from(v.pointers, p.first as int, 0);
            let (gf, cs) = free_chain(v.groups, p.first as int);
            let span = BatchBufferPointer { first: cs as usize, len: (end(p) - cs) as usize };
            &&& 0 <= idx < v.pointers.len() && v.pointers[idx] == p
            &&& w.alloc_set() == v.alloc_set().remove(p)
            &&& v.regions().contains(p)
            &&& v.alloc_set().contains(p)
            &&& chain_inv(v, p, gf, cs)
            &&& forall|s: BatchBufferPointer| #[trigger] pending_set(gf).contains(s) ==> end(s) != cs
            &&& forall|r: BatchBufferPointer| #[trigger] w.alloc_set().contains(r) || pending_set(gf).contains(r)
                ==> v.regions().contains(r) && r != p && disjoint(r, span)
            &&& forall|i: int, j: int| 0 <= i < j < w.pointers.len() ==> end(w.pointers[i]) <= w.pointers[j].first
            &&& forall|r: BatchBufferPointer| #[trigger] v.regions().contains(r) ==> r.len > 0
        }),
{
    let w = spec_free(v, p);
    lemma_wf_regions_basic(v);
    lemma_pointer_index_from(v.pointers, p.first as int, 0);
    let idx = pointer_index_from(v.pointers, p.first as int, 0);
    let i0 = choose|i: int| 0 <= i < v.pointers.len() && v.pointers[i] == p;
    assert(idx == i0) by {
        if idx != i0 {
            if idx != -1 {
                assert(v.regions().contains(v.pointers[idx]));
                assert(v.regions().contains(v.pointers[i0]));
                if idx < i0 {
                    assert(end(v.pointers[idx]) <= v.pointers[i0].first);
                } else {
                    assert(end(v.pointers[i0]) <= v.pointers[idx].first);
                }
            }
        }
    }
    assert(v.alloc_set().contains(p));
    lemma_to_set_remove(v.pointers, idx);
    lemma_chain_start(v, p);
    lemma_free_chain(v, p, v.groups, p.first as int);
    let (gf, cs) = free_chain(v.groups, p.first as int);
    lemma_pending_set_ends(gf, cs);
    assert(v.regions().contains(p));
    let span = BatchBufferPointer { first: cs as usize, len: (end(p) - cs) as usize };
    assert forall|i: int, j: int| 0 <= i < j < w.pointers.len() implies end(w.pointers[i]) <= w.pointers[j].first by {
        let i1 = if i < idx { i } else { i + 1 };
        let j1 = if j < idx { j } else { j + 1 };
        assert(w.pointers[i] == v.pointers[i1]);
        assert(w.pointers[j] == v.pointers[j1]);
    }
    assert forall|r: BatchBufferPointer| #[trigger] w.alloc_set().contains(r) || pending_set(gf).contains(r) implies v.regions().contains(r) && r != p && disjoint(r, span) by {
        if pending_set(gf).contains(r) {
            assert(v.pend_set().contains(r));
            assert(!v.alloc_set().contains(r));
        }
    }
}

#[verifier::spinoff_prover]
proof fn lemma_free_last(v: AllocatorView, p: BatchBufferPointer)
    requires
        v.wf(),
        v.pointers.contains(p),
        end(p) == v.len,
    ensures
        spec_free(v, p).wf(),
{
    let w = spec_free(v, p);
    lemma_free_common(v, p);
    let idx = pointer_index_from(v.pointers, p.first as int, 0);
    let (gf, cs) = free_chain(v.groups, p.first as int);
    let span = BatchBufferPointer { first: cs as usize, len: (end(p) - cs) as usize };
    assert(w.groups == gf);
    assert(w.regions() =~= v.alloc_set().remove(p).union(pending_set(gf)));
    assert forall|r: BatchBufferPointer| #[trigger] w.regions().contains(r) implies r.len > 0 && end(r) <= w.len by {
        assert(v.regions().contains(r) && disjoint(r, span));
    }
    assert forall|r: BatchBufferPointer, t: BatchBufferPointer| #[trigger] w.regions().contains(r) && #[trigger] w.regions().contains(t) && r != t implies disjoint(r, t) by {
        assert(v.regions().contains(r) && v.regions().contains(t));
    }
    assert forall|r: BatchBufferPointer| #[trigger] w.regions().contains(r) && r.first > 0 implies w.has_region_ending_at(r.first as int) by {
        assert(v.regions().contains(r) && disjoint(r, span));
        assert(v.has_region_ending_at(r.first as int));
        let s = choose|s: BatchBufferPointer| #[trigger] v.regions().contains(s) && end(s) == r.first;
        if s == p {
        } else if v.alloc_set().contains(s) {
            assert(w.regions().contains(s));
        } else if pending_set(gf).contains(s) {
            assert(w.regions().contains(s));
        } else {
            assert(v.pend_set().contains(s));
        }
    }
    assert forall|r: BatchBufferPointer| !(#[trigger] w.alloc_set().contains(r) && w.pend_set().contains(r)) by {
        if w.alloc_set().contains(r) && w.pend_set().contains(r) {
            assert(v.alloc_set().contains(r) && v.pend_set().contains(r));
        }
    }
    // the last live range
    assert(v.regions().contains(v.pointers.last()));
    assert(v.pointers.last() == p) by {
        if v.pointers.last() != p {
            assert(disjoint(v.pointers.last(), p));
        }
    }
    assert(idx == v.pointers.len() - 1);
    if cs > 0 {
        let s = choose|s: BatchBufferPointer| (#[trigger] v.alloc_set().contains(s) || pending_set(gf).contains(s)) && end(s) == cs;
        assert(!pending_set(gf).contains(s));
        assert(s != p);
        assert(w.alloc_set().contains(s));
        let si = choose|i: int| 0 <= i < w.pointers.len() && w.pointers[i] == s;
        assert(w.pointers.len() > 0);
        assert(w.regions().contains(w.pointers.last()));
        assert(w.pointers[w.pointers.len() - 1] == w.pointers.last());
        if si < w.pointers.len() - 1 {
            assert(end(w.pointers[si]) <= w.pointers.last().first);
        }
    } else {
        if w.pointers.len() > 0 {
            assert(w.alloc_set().contains(w.pointers[0]));
        }
    }
}

#[verifier::spinoff_prover]
proof fn lemma_free_middle(v: AllocatorView, p: BatchBufferPointer)
    requires
        v.wf(),
        v.pointers.contains(p),
        end(p) != v.len,
    ensures
        spec_free(v, p).wf(),
{
    let w = spec_free(v, p);
    lemma_free_common(v, p);
    let idx = pointer_index_from(v.pointers, p.first as int, 0);
    let (gf, cs) = free_chain(v.groups, p.first as int);
    let span = BatchBufferPointer { first: cs as usize, len: (end(p) - cs) as usize };
    let nlen = (end(p) - cs) as usize;
    let last = end(p) as usize;
    assert forall|g: int, k: int| valid_entry(gf, g, k) implies gf[g].1[k] != last by {
        assert(is_pending(gf, pending_at(gf, g, k)));
        let s = pending_at(gf, g, k);
        assert(pending_set(gf).contains(s));
        assert(disjoint(s, span));
    }
    lemma_groups_push_front(gf, nlen, last);
    assert(span == BatchBufferPointer { first: (last - nlen) as usize, len: nlen });
    assert(w.pend_set() == pending_set(gf).insert(span));
    assert(w.regions() =~= v.alloc_set().remove(p).union(pending_set(gf)).insert(span));
    assert forall|r: BatchBufferPointer| #[trigger] w.regions().contains(r) implies r.len > 0 && end(r) <= w.len by {
        if r != span {
            assert(v.regions().contains(r));
        }
    }
    assert forall|r: BatchBufferPointer, t: BatchBufferPointer| #[trigger] w.regions().contains(r) && #[trigger] w.regions().contains(t) && r != t implies disjoint(r, t) by {
        if r != span && t != span {
            assert(v.regions().contains(r) && v.regions().contains(t));
        }
    }
    assert forall|r: BatchBufferPointer| #[trigger] w.regions().contains(r) && r.first > 0 implies w.has_region_ending_at(r.first as int) by {
        if r == span {
            let s = choose|s: BatchBufferPointer| (#[trigger] v.alloc_set().contains(s) || pending_set(gf).contains(s)) && end(s) == cs;
            assert(s != p);
            assert(w.regions().contains(s));
        } else {
            assert(v.regions().contains(r) && disjoint(r, span));
            assert(v.has_region_ending_at(r.first as int));
            let s = choose|s: BatchBufferPointer| #[trigger] v.regions().contains(s) && end(s) == r.first;
            if s == p {
                assert(w.regions().contains(span));
            } else if v.alloc_set().contains(s) {
                assert(w.regions().contains(s));
            } else if pending_set(gf).contains(s) {
                assert(w.regions().contains(s));
            } else {
                assert(v.pend_set().contains(s));
            }
        }
    }
    assert forall|r: BatchBufferPointer| !(#[trigger] w.alloc_set().contains(r) && w.pend_set().contains(r)) by {
        if w.alloc_set().contains(r) && w.pend_set().contains(r) {
            if r == span {
                assert(disjoint(r, span));
            } else {
                assert(v.alloc_set().contains(r) && v.pend_set().contains(r));
            }
        }
    }
    assert(v.regions().contains(v.pointers.last()));
    assert(idx != v.pointers.len() - 1);
    assert(w.pointers.last() == v.pointers.last());
}

proof fn lemma_free_wf(v: AllocatorView, p: BatchBufferPointer)
    requires
        v.wf(),
        v.pointers.contains(p),
    ensures
        spec_free(v, p).wf(),
        spec_free(v, p).alloc_set() == v.alloc_set().remove(p),
{
    lemma_free_common(v, p);
    if end(p) == v.len {
        lemma_free_last(v, p);
    } else {
        lemma_free_middle(v, p);
    }
}

proof fn lemma_sum_lens_take(s: Seq<BatchBufferPointer>, k: int)
    requires
        0 < k <= s.len(),
    ensures
        sum_lens(s.take(k)) == sum_lens(s.take(k - 1)) + s[k - 1].len,
{
    assert(s.take(k).drop_last() =~= s.take(k - 1));
}

proof fn lemma_sum_lens_prefix_mono(s: Seq<BatchBufferPointer>, i: int, j: int)
    requires
        0 <= i <= j <= s.len(),
    ensures
        sum_lens(s.take(i)) <= sum_lens(s.take(j)),
    decreases j - i,
{
    if i < j {
        lemma_sum_lens_take(s, j);
        lemma_sum_lens_prefix_mono(s, i, j - 1);
    }
}

proof fn lemma_sum_lens_nonneg(s: Seq<BatchBufferPointer>)
    ensures
        sum_lens(s) >= 0,
    decreases s.len(),
{
    if s.len() > 0 {
        lemma_sum_lens_nonneg(s.drop_last());
    }
}

/// The lengths of ranges sorted by start and disjoint add up to at most the end of the
/// last one.
pub(crate) proof fn lemma_sum_le_end(s: Seq<BatchBufferPointer>, k: int)
    requires
        0 < k <= s.len(),
        forall|i: int, j: int| 0 <= i < j < s.len() ==> end(s[i]) <= s[j].first,
    ensures
        sum_lens(s.take(k)) <= end(s[k - 1]),
    decreases k,
{
    lemma_sum_lens_take(s, k);
    if k > 1 {
        lemma_sum_le_end(s, k - 1);
    } else {
        assert(s.take(0) =~= Seq::empty());
    }
}

proof fn lemma_sum_lens_insert(s: Seq<BatchBufferPointer>, pos: int, x: BatchBufferPointer)
    requires
        0 <= pos <= s.len(),
    ensures
        sum_lens(s.insert(pos, x)) == sum_lens(s) + x.len,
    decreases s.len(),
{
    if pos == s.len() {
        assert(s.insert(pos, x).drop_last() =~= s);
    } else {
        lemma_sum_lens_insert(s.drop_last(), pos, x);
        assert(s.insert(pos, x).drop_last() =~= s.drop_last().insert(pos, x));
    }
}

#[verifier::spinoff_prover]
#[verifier::rlimit(30)]
pub(crate) proof fn lemma_packed_wf(s: Seq<BatchBufferPointer>, events: Seq<Event>)
    requires
        forall|i: int| 0 <= i < s.len() ==> #[trigger] s[i].len > 0,
        sum_lens(s) <= usize::MAX,
    ensures
        (AllocatorView { pointers: packed(s), groups: Seq::empty(), events, len: sum_lens(s) as usize }).wf(),
        forall|i: int| 0 <= i < s.len() ==> #[trigger] packed(s)[i].first + s[i].len <= sum_lens(s),
{
    let v = AllocatorView { pointers: packed(s), groups: Seq::empty(), events, len: sum_lens(s) as usize };
    let p = packed(s);
    assert(s.take(s.len() as int) =~= s);
    assert forall|i: int| 0 <= i < s.len() implies #[trigger] packed(s)[i].first + s[i].len <= sum_lens(s) && sum_lens(s.take(i)) == p[i].first && end(p[i]) == sum_lens(s.take(i + 1)) by {
        lemma_sum_lens_nonneg(s.take(i));
        lemma_sum_lens_take(s, i + 1);
        lemma_sum_lens_prefix_mono(s, i + 1, s.len() as int);
    }
    assert forall|i: int, j: int| 0 <= i < j < p.len() implies end(p[i]) <= p[j].first by {
        lemma_sum_lens_prefix_mono(s, i + 1, j);
    }
    assert(pending_set(Seq::empty()) =~= Set::empty()) by {
        assert forall|x: BatchBufferPointer| !pending_set(Seq::empty()).contains(x) by {}
    }
    assert(v.regions() =~= p.to_set());
    assert forall|r: BatchBufferPointer| #[trigger] v.regions().contains(r) implies r.len > 0 && end(r) <= v.len by {
        let i = choose|i: int| 0 <= i < p.len() && p[i] == r;
    }
    assert forall|r: BatchBufferPointer, t: BatchBufferPointer| #[trigger] v.regions().contains(r) && #[trigger] v.regions().contains(t) && r != t implies disjoint(r, t) by {
        let i = choose|i: int| 0 <= i < p.len() && p[i] == r;
        let j = choose|j: int| 0 <= j < p.len() && p[j] == t;
        assert(i != j);
    }
    assert forall|r: BatchBufferPointer| #[trigger] v.regions().contains(r) && r.first > 0 implies v.has_region_ending_at(r.first as int) by {
        let i = choose|i: int| 0 <= i < p.len() && p[i] == r;
        if i == 0 {
            assert(s.take(0) =~= Seq::empty());
        } else {
            assert(v.regions().contains(p[i - 1]));
        }
    }
    if s.len() > 0 {
        assert(p.last() == p[s.len() - 1]);
    } else {
        assert(sum_lens(s) == 0);
    }
    if sum_lens(s) == 0 && s.len() > 0 {
        assert(packed(s)[0].first + s[0].len <= sum_lens(s));
    }
    assert(v.wf());
}

proof fn lemma_key_insert_index_from(keys: Seq<i64>, order: Seq<int>, key: i64, i: int)
    requires
        0 <= i <= order.len(),
    ensures
        i <= key_insert_index_from(keys, order, key, i) <= order.len(),
    decreases order.len() - i,
{
    if i < order.len() && keys[order[i]] <= key {
        lemma_key_insert_index_from(keys, order, key, i + 1);
    }
}

proof fn lemma_stable_order_range(keys: Seq<i64>, n: nat)
    ensures
        stable_order(keys, n).len() == n,
        forall|i: int| 0 <= i < n ==> 0 <= #[trigger] stable_order(keys, n)[i] < n,
    decreases n,
{
    if n > 0 {
        let prev = stable_order(keys, (n - 1) as nat);
        lemma_stable_order_range(keys, (n - 1) as nat);
        lemma_key_insert_index_from(keys, prev, keys[n - 1], 0);
        let pos = key_insert_index_from(keys, prev, keys[n - 1], 0);
        assert forall|i: int| 0 <= i < n implies 0 <= #[trigger] stable_order(keys, n)[i] < n by {
            if i < pos {
                assert(stable_order(keys, n)[i] == prev[i]);
            } else if i > pos {
                assert(stable_order(keys, n)[i] == prev[i - 1]);
            }
        }
    }
}

/// The ranges of `s` in the order of a stable sort by `keys`.
pub open spec fn sorted_by_keys(s: Seq<BatchBufferPointer>, keys: Seq<i64>) -> Seq<BatchBufferPointer> {
    stable_order(keys, s.len()).map_values(|i: int| s[i])
}

pub(crate) proof fn lemma_sorted_by_keys_sum(s: Seq<BatchBufferPointer>, keys: Seq<i64>, k: nat)
    requires
        k <= s.len(),
    ensures
        sum_lens(stable_order(keys, k).map_values(|i: int| s[i])) == sum_lens(s.take(k as int)),
    decreases k,
{
    lemma_stable_order_range(keys, k);
    if k == 0 {
        assert(stable_order(keys, 0).map_values(|i: int| s[i]) =~= Seq::empty());
        assert(s.take(0) =~= Seq::empty());
    } else {
        let prev = stable_order(keys, (k - 1) as nat);
        lemma_sorted_by_keys_sum(s, keys, (k - 1) as nat);
        lemma_stable_order_range(keys, (k - 1) as nat);
        lemma_key_insert_index_from(keys, prev, keys[k - 1], 0);
        let pos = key_insert_index_from(keys, prev, keys[k - 1], 0);
        let f = |i: int| s[i];
        assert(stable_order(keys, k).map_values(f) =~= prev.map_values(f).insert(pos, s[k - 1]));
        lemma_sum_lens_insert(prev.map_values(f), pos, s[k - 1]);
        lemma_sum_lens_take(s, k as int);
    }
}

proof fn lemma_wf_events(v: AllocatorView, e: Seq<Event>)
    requires
        v.wf(),
    ensures
        (AllocatorView { events: e, ..v }).wf(),
{
    let w = AllocatorView { events: e, ..v };
    assert(w.regions() == v.regions());
    assert(w.alloc_set() == v.alloc_set());
    assert(w.pend_set() == v.pend_set());
}

/// Allocates ranges of a batch buffer; see the module documentation.
pub struct BatchBufferAllocator {
    pointers: Vec<BatchBufferPointer>,
    pending_pointers: Vec<PendingGroup>,
    events: VecDeque<Event>,
    len: usize,
}

spec fn group_view(g: PendingGroup) -> (usize, Seq<usize>) {
    (g.size, g.lasts@)
}

impl View for BatchBufferAllocator {
    type V = AllocatorView;

    closed spec fn view(&self) -> AllocatorView {
        AllocatorView {
            pointers: self.pointers@,
            groups: self.pending_pointers@.map_values(|g: PendingGroup| group_view(g)),
            events: self.events@,
            len: self.len,
        }
    }
}

impl BatchBufferAllocator {
    fn find_group(&self, size: usize) -> (r: Option<usize>)
        ensures
            match r {
                Some(i) => i == group_index(self@.groups, size as int) && i < self@.groups.len()
                    && self@.groups[i as int].0 == size,
                None => group_index(self@.groups, size as int) == -1,
            },
            self@.groups.len() == self.pending_pointers@.len(),
    {
        let ghost groups = self@.groups;
        let mut i: usize = 0;
        while i < self.pending_pointers.len()
            invariant
                i <= self.pending_pointers.len(),
                groups == self@.groups,
                groups.len() == self.pending_pointers@.len(),
                group_index_from(groups, size as int, i as int) == group_index(groups, size as int),
            decreases self.pending_pointers.len() - i,
        {
            assert(groups[i as int] == group_view(self.pending_pointers@[i as int]));
            if self.pending_pointers[i].size == size {
                return Some(i);
            }
            i = i + 1;
        }
        None
    }

    fn find_first_at_least(&self, size: usize) -> (r: usize)
        ensures
            r == first_at_least(self@.groups, size as int),
            r <= self@.groups.len(),
            self@.groups.len() == self.pending_pointers@.len(),
    {
        proof {
            lemma_first_at_least_from(self@.groups, size as int, 0);
        }
        let ghost groups = self@.groups;
        let mut i: usize = 0;
        while i < self.pending_pointers.len()
            invariant
                i <= self.pending_pointers.len(),
                groups == self@.groups,
                groups.len() == self.pending_pointers@.len(),
                first_at_least_from(groups, size as int, i as int) == first_at_least(groups, size as int),
            decreases self.pending_pointers.len() - i,
        {
            assert(groups[i as int] == group_view(self.pending_pointers@[i as int]));
            if self.pending_pointers[i].size >= size {
                return i;
            }
            i = i + 1;
        }
        i
    }

    /// Finds the entry of a pending range that ends at `x`.
    fn find_pending_end(&self, x: usize) -> (r: Option<(usize, usize)>)
        ensures
            match r {
                Some((g, k)) => find_pending(self@.groups, x as int) == Some((g as int, k as int)),
                None => find_pending(self@.groups, x as int) is None,
            },
    {
        let ghost groups = self@.groups;
        let mut g: usize = 0;
        while g < self.pending_pointers.len()
            invariant
                g <= self.pending_pointers.len(),
                groups == self@.groups,
                groups.len() == self.pending_pointers@.len(),
                find_pending_from(groups, x as int, g as int) == find_pending(groups, x as int),
            decreases self.pending_pointers.len() - g,
        {
            assert(groups[g as int] == group_view(self.pending_pointers@[g as int]));
            let lasts = &self.pending_pointers[g].lasts;
            let ghost ls = groups[g as int].1;
            let mut k: usize = 0;
            while k < lasts.len()
                invariant
                    k <= lasts@.len(),
                    ls == lasts@,
                    g < groups.len(),
                    groups == self@.groups,
                    ls == groups[g as int].1,
                    find_pending_from(groups, x as int, g as int) == find_pending(groups, x as int),
                    seq_index_from(ls, x as int, k as int) == seq_index_from(ls, x as int, 0),
                decreases lasts.len() - k,
            {
                if lasts[k] == x {
                    assert(seq_index_from(ls, x as int, k as int) == k as int);
                    assert(seq_index_from(groups[g as int].1, x as int, 0) == k as int);
                    assert(find_pending_from(groups, x as int, g as int) == Some((g as int, k as int)));
                    return Some((g, k));
                }
                k = k + 1;
            }
            g = g + 1;
        }
        None
    }

    fn push_pending_front(&mut self, size: usize, last: usize)
        ensures
            final(self)@.groups == groups_push_front(old(self)@.groups, size, last),
            final(self)@.pointers == old(self)@.pointers,
            final(self)@.events == old(self)@.events,
            final(self)@.len == old(self)@.len,
    {
        let ghost groups = self@.groups;
        match self.find_group(size) {
            Some(gi) => {
                let mut grp = self.pending_pointers.remove(gi);
                grp.lasts.push_front(last);
                self.pending_pointers.insert(gi, grp);
                assert(self@.groups =~= groups.update(gi as int, (groups[gi as int].0, seq![last] + groups[gi as int].1)));
            },
            None => {
                let pos = self.find_first_at_least(size);
                let mut lasts = VecDeque::new();
                lasts.push_back(last);
                self.pending_pointers.insert(pos, PendingGroup { size, lasts });
                assert(self@.groups =~= groups.insert(pos as int, (size, seq![last])));
            },
        }
    }

    fn pop_pending_front(&mut self, gi: usize) -> (r: usize)
        requires
            gi < old(self)@.groups.len(),
            old(self)@.groups[gi as int].1.len() > 0,
        ensures
            r == old(self)@.groups[gi as int].1[0],
            final(self)@.groups == groups_pop_front(old(self)@.groups, gi as int),
            final(self)@.pointers == old(self)@.pointers,
            final(self)@.events == old(self)@.events,
            final(self)@.len == old(self)@.len,
    {
        let ghost groups = self@.groups;
        assert(groups[gi as int] == group_view(self.pending_pointers@[gi as int]));
        let mut grp = self.pending_pointers.remove(gi);
        let r = grp.lasts.pop_front();
        self.pending_pointers.insert(gi, grp);
        assert(self@.groups =~= groups_pop_front(groups, gi as int));
        match r {
            Some(x) => x,
            None => 0,
        }
    }

    fn remove_pending(&mut self, size: usize, last: usize)
        ensures
            final(self)@.groups == groups_remove(old(self)@.groups, size, last),
            final(self)@.pointers == old(self)@.pointers,
            final(self)@.events == old(self)@.events,
            final(self)@.len == old(self)@.len,
    {
        let ghost groups = self@.groups;
        match self.find_group(size) {
            None => {},
            Some(gi) => {
                assert(groups[gi as int] == group_view(self.pending_pointers@[gi as int]));
                let ghost ls = groups[gi as int].1;
                let mut k: usize = 0;
                let n = self.pending_pointers[gi].lasts.len();
                while k < n && self.pending_pointers[gi].lasts[k] != last
                    invariant
                        k <= n,
                        n == ls.len(),
                        gi < self.pending_pointers@.len(),
                        ls == self.pending_pointers@[gi as int].lasts@,
                        groups == self@.groups,
                        seq_index_from(ls, last as int, k as int) == seq_index_from(ls, last as int, 0),
                    decreases n - k,
                {
                    k = k + 1;
                }
                if k < n {
                    assert(seq_index_from(ls, last as int, 0) == k);
                    let mut grp = self.pending_pointers.remove(gi);
                    if n == 1 {
                        assert(self@.groups =~= groups.remove(gi as int));
                    } else {
                        grp.lasts.remove(k);
                        self.pending_pointers.insert(gi, grp);
                        assert(self@.groups =~= groups.update(gi as int, (groups[gi as int].0, ls.remove(k as int))));
                    }
                } else {
                    assert(seq_index_from(ls, last as int, 0) == -1);
                }
            },
        }
    }
}

impl BatchBufferAllocator {
    fn find_pointer(&self, first: usize) -> (r: Option<usize>)
        ensures
            match r {
                Some(i) => i == pointer_index_from(self@.pointers, first as int, 0) && i < self@.pointers.len(),
                None => pointer_index_from(self@.pointers, first as int, 0) == -1,
            },
    {
        let mut i: usize = 0;
        while i < self.pointers.len()
            invariant
                i <= self.pointers.len(),
                pointer_index_from(self@.pointers, first as int, i as int) == pointer_index_from(self@.pointers, first as int, 0),
            decreases self.pointers.len() - i,
        {
            if self.pointers[i].first == first {
                return Some(i);
            }
            i = i + 1;
        }
        None
    }

    fn insert_index(&self, first: usize) -> (r: usize)
        ensures
            r == insert_index_from(self@.pointers, first as int, 0),
            r <= self@.pointers.len(),
    {
        proof {
            lemma_insert_index_from(self@.pointers, first as int, 0);
        }
        let mut i: usize = 0;
        while i < self.pointers.len()
            invariant
                i <= self.pointers.len(),
                insert_index_from(self@.pointers, first as int, i as int) == insert_index_from(self@.pointers, first as int, 0),
            decreases self.pointers.len() - i,
        {
            if self.pointers[i].first > first {
                return i;
            }
            i = i + 1;
        }
        i
    }

    /// An allocator with nothing allocated.
    pub fn new() -> (r: Self)
        ensures
            r@.wf(),
            r@.pointers.len() == 0,
            r@.groups.len() == 0,
            r@.events.len() == 0,
            r@.len == 0,
    {
        let r = BatchBufferAllocator {
            pointers: Vec::new(),
            pending_pointers: Vec::new(),
            events: VecDeque::new(),
            len: 0,
        };
        assert(r@.groups =~= Seq::empty());
        assert(r@.alloc_set() =~= Set::empty());
        assert(r@.pend_set() =~= Set::empty());
        r
    }

    fn allocate_from_pending_pointers(&mut self, len: usize) -> (r: Option<BatchBufferPointer>)
        requires
            old(self)@.wf(),
            len > 0,
        ensures
            r is Some <==> allocates_in_place(old(self)@, len as int),
            r is Some ==> ({
                let (w, p) = spec_allocate(old(self)@, len);
                &&& r->0 == p
                &&& final(self)@.pointers == w.pointers
                &&& final(self)@.groups == w.groups
                &&& final(self)@.len == w.len
                &&& final(self)@.events == old(self)@.events
            }),
            r is None ==> final(self)@ == old(self)@,
    {
        let ghost v = self@;
        let gi = self.find_first_at_least(len);
        if gi >= self.pending_pointers.len() {
            return None;
        }
        if self.pending_pointers[gi].lasts.len() == 0 {
            assert(self.pending_pointers@[gi as int].lasts@ == v.groups[gi as int].1);
            return None;
        }
        assert(self.pending_pointers@[gi as int].lasts@ == v.groups[gi as int].1);
        assert(v.groups[gi as int].0 == self.pending_pointers@[gi as int].size);
        proof {
            lemma_allocate_in_place_sets(v, len);
        }
        let size = self.pending_pointers[gi].size;
        let last = self.pop_pending_front(gi);
        let first = last - size;
        let pointer = BatchBufferPointer::new(first, len);
        let pos = self.insert_index(first);
        self.pointers.insert(pos, pointer);
        if size != len {
            self.push_pending_front(size - len, last);
        }
        Some(pointer)
    }

    /// Hands out `len` slots: the front range of the smallest pending size that fits
    /// (cut to `len`, the rest stays pending), else new slots at the end; queues a
    /// write of the range.
    ///
    /// Ranges are known by their first slot, so an empty range would share it with the
    /// range handed out after it, and freeing one would lose the other: `len` must be
    /// positive.
    pub fn allocate(&mut self, len: usize) -> (r: BatchBufferPointer)
        requires
            old(self)@.wf(),
            len > 0,
            allocates_in_place(old(self)@, len as int) || old(self)@.len + len <= usize::MAX,
        ensures
            final(self)@.wf(),
            (final(self)@, r) == spec_allocate(old(self)@, len),
    {
        let ghost v = self@;
        if let Some(pointer) = self.allocate_from_pending_pointers(len) {
            self.events.push_back(Event::Write { first: pointer.first });
            proof {
                lemma_allocate_in_place(v, len);
            }
            assert(self@ == spec_allocate(v, len).0);
            return pointer;
        }
        let first = if self.pointers.len() > 0 {
            let last = self.pointers[self.pointers.len() - 1];
            last.first + last.len
        } else {
            0
        };
        assert(first == v.len);
        let pointer = BatchBufferPointer::new(first, len);
        self.pointers.push(pointer);
        self.len = self.len + len;
        self.events.push_back(Event::Write { first });
        proof {
            lemma_allocate_at_end(v, len);
        }
        assert(self@ == spec_allocate(v, len).0);
        pointer
    }

    /// Gives the live range `pointer` back; see `spec_free`.
    pub fn free(&mut self, pointer: BatchBufferPointer)
        requires
            old(self)@.wf(),
            old(self)@.pointers.contains(pointer),
        ensures
            final(self)@.wf(),
            final(self)@ == spec_free(old(self)@, pointer),
    {
        let ghost v = self@;
        proof {
            lemma_free_wf(v, pointer);
            lemma_free_common(v, pointer);
        }
        let first = pointer.first;
        let last = pointer.first + pointer.len;
        match self.find_pointer(first) {
            Some(i) => {
                self.pointers.remove(i);
            },
            None => {},
        }
        let is_last = first == self.len - pointer.len;
        let mut seek = first;
        loop
            invariant
                groups_wf(self@.groups),
                free_chain(v.groups, first as int) == free_chain(self@.groups, seek as int),
                self@.pointers == v.pointers.remove(pointer_index_from(v.pointers, first as int, 0)),
                self@.events == v.events,
                self@.len == v.len,
            ensures
                find_pending(self@.groups, seek as int) is None,
                free_chain(v.groups, first as int) == free_chain(self@.groups, seek as int),
            decreases seek,
        {
            match self.find_pending_end(seek) {
                Some((g, k)) => {
                    let ghost gc = self@.groups;
                    proof {
                        lemma_find_pending(gc, seek as int);
                        assert(valid_entry(gc, g as int, k as int));
                        lemma_groups_remove(gc, g as int, k as int);
                    }
                    assert(gc[g as int].0 == self.pending_pointers@[g as int].size);
                    let size = self.pending_pointers[g].size;
                    self.remove_pending(size, seek);
                    seek = seek - size;
                },
                None => {
                    break;
                },
            }
        }
        assert(free_chain(self@.groups, seek as int) == (self@.groups, seek as int));
        if is_last {
            self.len = seek;
            assert(self@ =~= spec_free(v, pointer));
            return;
        }
        self.push_pending_front(last - seek, last);
        self.events.push_back(Event::Clear { pointer });
        assert(self@ =~= spec_free(v, pointer));
    }

    /// Frees `pointer`, then allocates `len` slots, which must be positive (see
    /// `allocate`).
    pub fn reallocate(&mut self, pointer: BatchBufferPointer, len: usize) -> (r: BatchBufferPointer)
        requires
            old(self)@.wf(),
            old(self)@.pointers.contains(pointer),
            len > 0,
            allocates_in_place(spec_free(old(self)@, pointer), len as int) || spec_free(old(self)@, pointer).len + len <= usize::MAX,
        ensures
            final(self)@.wf(),
            (final(self)@, r) == spec_allocate(spec_free(old(self)@, pointer), len),
    {
        self.free(pointer);
        self.allocate(len)
    }

    pub fn len(&self) -> (r: usize)
        ensures
            r == self@.len,
    {
        self.len
    }

    pub fn is_empty(&self) -> (r: bool)
        ensures
            r == (self@.len == 0),
    {
        self.len == 0
    }
}

impl BatchBufferAllocator {
    /// Takes the oldest queued event; see `spec_pop_event`.
    pub fn pop_event(&mut self) -> (r: Option<BatchBufferAllocatorEvent>)
        requires
            old(self)@.wf(),
        ensures
            final(self)@.wf(),
            (final(self)@, r) == spec_pop_event(old(self)@),
    {
        let ghost v = self@;
        match self.events.pop_front() {
            None => {
                assert(self@ == v);
                None
            },
            Some(event) => {
                assert(self@ =~= AllocatorView { events: v.events.drop_first(), ..v });
                proof {
                    lemma_wf_events(v, v.events.drop_first());
                }
                match event {
                    Event::Write { first } => {
                        proof {
                            lemma_pointer_index_from(v.pointers, first as int, 0);
                        }
                        match self.find_pointer(first) {
                            Some(i) => Some(BatchBufferAllocatorEvent::Write(self.pointers[i])),
                            None => None,
                        }
                    },
                    Event::Clear { pointer } => Some(BatchBufferAllocatorEvent::Clear(pointer)),
                    Event::Reallocate { pairs } => Some(BatchBufferAllocatorEvent::ReallocateAll { pairs }),
                }
            },
        }
    }

    /// Lays the ranges `ptrs` end to end from 0 and queues the moves.
    fn repack(&mut self, ptrs: Vec<BatchBufferPointer>)
        requires
            forall|i: int| 0 <= i < ptrs@.len() ==> #[trigger] ptrs@[i].len > 0,
            sum_lens(ptrs@) <= usize::MAX,
        ensures
            final(self)@.wf(),
            repacked(final(self)@, ptrs@),
    {
        self.events.clear();
        self.pending_pointers.clear();
        self.pointers.clear();
        let ghost s = ptrs@;
        let ghost target = packed(s);
        proof {
            lemma_packed_wf(s, Seq::empty());
            assert(s.take(s.len() as int) =~= s);
        }
        let mut seek: usize = 0;
        let mut pairs: Vec<BatchBufferAllocatorReallocPair> = Vec::new();
        let mut i: usize = 0;
        while i < ptrs.len()
            invariant
                i <= ptrs@.len(),
                s == ptrs@,
                target == packed(s),
                self.pointers@ == target.take(i as int),
                pairs@.len() == i,
                forall|j: int| 0 <= j < i ==> #[trigger] pairs@[j].from == s[j] && pairs@[j].to == target[j],
                seek == sum_lens(s.take(i as int)),
                sum_lens(s) <= usize::MAX,
                self.pending_pointers@.len() == 0,
                self.events@.len() == 0,
                forall|j: int| 0 <= j < s.len() ==> #[trigger] packed(s)[j].first + s[j].len <= sum_lens(s),
            decreases ptrs.len() - i,
        {
            let pointer = ptrs[i];
            proof {
                lemma_sum_lens_take(s, i + 1);
                lemma_sum_lens_nonneg(s.take(i as int));
                assert(target[i as int].first == seek);
            }
            let new_pointer = BatchBufferPointer::new(seek, pointer.len);
            self.pointers.push(new_pointer);
            pairs.push(BatchBufferAllocatorReallocPair { from: pointer, to: new_pointer });
            seek = seek + pointer.len;
            i = i + 1;
            assert(self.pointers@ =~= target.take(i as int));
        }
        assert(self.pointers@ =~= target);
        assert(s.take(i as int) =~= s);
        assert(repack_pairs_ok(pairs@, s, target));
        self.events.push_back(Event::Reallocate { pairs });
        let mut k: usize = 0;
        while k < self.pointers.len()
            invariant
                k <= self.pointers@.len(),
                self.pointers@ == target,
                target.len() == s.len(),
                self.events@.len() == k + 1,
                self.events@[0] matches Event::Reallocate { pairs } && repack_pairs_ok(pairs@, s, target),
                self.events@.skip(1) == write_events(target).take(k as int),
                self.pending_pointers@.len() == 0,
                seek == sum_lens(s),
                sum_lens(s) <= usize::MAX,
                s == ptrs@,
                forall|i: int| 0 <= i < ptrs@.len() ==> #[trigger] ptrs@[i].len > 0,
            decreases self.pointers.len() - k,
        {
            let first = self.pointers[k].first;
            self.events.push_back(Event::Write { first });
            k = k + 1;
            assert(self.events@.skip(1) =~= write_events(target).take(k as int));
        }
        assert(write_events(target).take(k as int) =~= write_events(target));
        self.len = seek;
        assert(self@.groups =~= Seq::empty());
        proof {
            lemma_packed_wf(s, self@.events);
        }
        assert(self@ =~= AllocatorView { pointers: packed(s), groups: Seq::empty(), events: self@.events, len: sum_lens(s) as usize });
    }

    /// Lays the live ranges end to end from 0, in their order, and drops the pending
    /// ranges; queues the moves and a write of every range.
    pub fn defragmentation(&mut self)
        requires
            old(self)@.wf(),
        ensures
            final(self)@.wf(),
            repacked(final(self)@, old(self)@.pointers),
    {
        let ghost v = self@;
        let mut ptrs: Vec<BatchBufferPointer> = Vec::new();
        std::mem::swap(&mut ptrs, &mut self.pointers);
        proof {
            lemma_wf_regions_basic(v);
            if v.pointers.len() > 0 {
                lemma_sum_le_end(v.pointers, v.pointers.len() as int);
                assert(v.pointers.take(v.pointers.len() as int) =~= v.pointers);
                assert(v.regions().contains(v.pointers.last()));
            }
            assert(forall|i: int| 0 <= i < v.pointers.len() ==> v.regions().contains(v.pointers[i]));
        }
        self.repack(ptrs);
    }

    /// Orders the live ranges by `keys` (the key of the range at each index, in start
    /// order; a stable sort), lays them end to end from 0 and drops the pending
    /// ranges; queues the moves and a write of every range.
    pub fn sort_by(&mut self, keys: &Vec<i64>)
        requires
            old(self)@.wf(),
            keys@.len() == old(self)@.pointers.len(),
        ensures
            final(self)@.wf(),
            repacked(final(self)@, sorted_by_keys(old(self)@.pointers, keys@)),
    {
        let ghost v = self@;
        let n = self.pointers.len();
        let mut order: Vec<usize> = Vec::new();
        let mut k: usize = 0;
        while k < n
            invariant
                k <= n,
                n == v.pointers.len(),
                keys@.len() == n,
                order@.map_values(|x: usize| x as int) == stable_order(keys@, k as nat),
            decreases n - k,
        {
            proof {
                lemma_stable_order_range(keys@, k as nat);
            }
            let ghost prev = stable_order(keys@, k as nat);
            let key = keys[k];
            let mut j: usize = 0;
            while j < order.len() && keys[order[j]] <= key
                invariant
                    j <= order@.len(),
                    order@.map_values(|x: usize| x as int) == prev,
                    prev.len() == k,
                    forall|i: int| 0 <= i < k ==> 0 <= #[trigger] prev[i] < k,
                    k < n,
                    keys@.len() == n,
                    key == keys@[k as int],
                    key_insert_index_from(keys@, prev, key, j as int) == key_insert_index_from(keys@, prev, key, 0),
                decreases order.len() - j,
            {
                assert(prev[j as int] == order@[j as int] as int);
                j = j + 1;
            }
            proof {
                if j < order.len() {
                    assert(prev[j as int] == order@[j as int] as int);
                }
            }
            order.insert(j, k);
            k = k + 1;
            assert(order@.map_values(|x: usize| x as int) =~= stable_order(keys@, k as nat));
        }
        proof {
            lemma_stable_order_range(keys@, n as nat);
        }
        let ghost sorted = sorted_by_keys(v.pointers, keys@);
        let mut ptrs: Vec<BatchBufferPointer> = Vec::new();
        let mut i: usize = 0;
        while i < n
            invariant
                i <= n,
                n == v.pointers.len(),
                n == self.pointers@.len(),
                self@ == v,
                order@.map_values(|x: usize| x as int) == stable_order(keys@, n as nat),
                stable_order(keys@, n as nat).len() == n,
                forall|t: int| 0 <= t < n ==> 0 <= #[trigger] stable_order(keys@, n as nat)[t] < n,
                sorted == sorted_by_keys(v.pointers, keys@),
                ptrs@ == sorted.take(i as int),
            decreases n - i,
        {
            assert(stable_order(keys@, n as nat)[i as int] == order@[i as int] as int);
            ptrs.push(self.pointers[order[i]]);
            i = i + 1;
            assert(ptrs@ =~= sorted.take(i as int));
        }
        assert(ptrs@ =~= sorted);
        proof {
            lemma_wf_regions_basic(v);
            lemma_sorted_by_keys_sum(v.pointers, keys@, n as nat);
            assert(v.pointers.take(n as int) =~= v.pointers);
            if n > 0 {
                lemma_sum_le_end(v.pointers, n as int);
                assert(v.regions().contains(v.pointers.last()));
            }
            assert forall|t: int| 0 <= t < ptrs@.len() implies #[trigger] ptrs@[t].len > 0 by {
                assert(ptrs@[t] == v.pointers[stable_order(keys@, n as nat)[t]]);
                assert(v.regions().contains(v.pointers[stable_order(keys@, n as nat)[t]]));
            }
        }
        self.repack(ptrs);
    }
}

impl BatchBufferAllocator {
    /// The live ranges, by increasing start.
    pub fn pointers(&self) -> (r: &Vec<BatchBufferPointer>)
        ensures
            r@ == self@.pointers,
    {
        &self.pointers
    }

    /// Number of sizes that have (or had, until the last range of that size was
    /// reused) pending ranges.
    pub fn pending_pointers_len(&self) -> (r: usize)
        ensures
            r == self@.groups.len(),
    {
        self.pending_pointers.len()
    }

    /// Number of pending ranges (saturated at `usize::MAX`).
    pub fn pending_ranges_len(&self) -> (r: usize)
        ensures
            r == if pending_count(self@.groups) <= usize::MAX { pending_count(self@.groups) } else { usize::MAX as int },
    {
        let ghost groups = self@.groups;
        let mut count: usize = 0;
        let mut i: usize = 0;
        while i < self.pending_pointers.len()
            invariant
                i <= self.pending_pointers@.len(),
                groups == self@.groups,
                groups.len() == self.pending_pointers@.len(),
                count == if pending_count(groups.take(i as int)) <= usize::MAX { pending_count(groups.take(i as int)) } else { usize::MAX as int },
            decreases self.pending_pointers.len() - i,
        {
            assert(groups.take(i + 1).drop_last() =~= groups.take(i as int));
            assert(groups[i as int] == group_view(self.pending_pointers@[i as int]));
            count = count.saturating_add(self.pending_pointers[i].lasts.len());
            i = i + 1;
        }
        assert(groups.take(i as int) =~= groups);
        count
    }
}

impl Default for BatchBufferAllocator {
    fn default() -> (r: Self)
        ensures
            r@.wf(),
            r@.pointers.len() == 0,
            r@.groups.len() == 0,
            r@.events.len() == 0,
            r@.len == 0,
    {
        Self::new()
    }
}


/// Live ranges never overlap: each has at least one slot and lies inside the used
/// part of the buffer, and they come by increasing start.
pub proof fn lemma_live_ranges_disjoint(v: AllocatorView)
    requires
        v.wf(),
    ensures
        forall|i: int| 0 <= i < v.pointers.len() ==> #[trigger] v.pointers[i].len > 0 && end(v.pointers[i]) <= v.len,
        forall|i: int, j: int|
            0 <= i < v.pointers.len() && 0 <= j < v.pointers.len() && i != j ==> disjoint(
                #[trigger] v.pointers[i],
                #[trigger] v.pointers[j],
            ),
        forall|i: int, j: int| 0 <= i < j < v.pointers.len() ==> #[trigger] v.pointers[i].first < #[trigger] v.pointers[j].first,
{
    lemma_wf_regions_basic(v);
    assert forall|i: int| 0 <= i < v.pointers.len() implies #[trigger] v.pointers[i].len > 0 && end(v.pointers[i]) <= v.len by {
        assert(v.regions().contains(v.pointers[i]));
    }
    assert forall|i: int, j: int| 0 <= i < v.pointers.len() && 0 <= j < v.pointers.len() && i != j implies disjoint(
        #[trigger] v.pointers[i],
        #[trigger] v.pointers[j],
    ) by {
        assert(v.regions().contains(v.pointers[i]));
        assert(v.regions().contains(v.pointers[j]));
    }
    assert forall|i: int, j: int| 0 <= i < j < v.pointers.len() implies #[trigger] v.pointers[i].first < #[trigger] v.pointers[j].first by {
        assert(v.regions().contains(v.pointers[i]));
    }
}

/// An allocation hands out `n` slots that no live range holds, inside the used part
/// of the buffer, and leaves every other live range where it was.
pub proof fn lemma_allocate_fresh(v: AllocatorView, n: usize)
    requires
        v.wf(),
        n > 0,
        allocates_in_place(v, n as int) || v.len + n <= usize::MAX,
    ensures
        ({
            let (w, p) = spec_allocate(v, n);
            &&& w.wf()
            &&& p.len == n
            &&& end(p) <= w.len
            &&& !v.pointers.contains(p)
            &&& forall|i: int| 0 <= i < v.pointers.len() ==> disjoint(#[trigger] v.pointers[i], p)
            &&& w.pointers.to_set() == v.pointers.to_set().insert(p)
        }),
{
    let (w, p) = spec_allocate(v, n);
    lemma_wf_regions_basic(v);
    if allocates_in_place(v, n as int) {
        lemma_allocate_in_place_sets(v, n);
        lemma_allocate_in_place(v, n);
        let gi = first_at_least(v.groups, n as int);
        let q = pending_at(v.groups, gi, 0);
        assert forall|i: int| 0 <= i < v.pointers.len() implies disjoint(#[trigger] v.pointers[i], p) by {
            let r = v.pointers[i];
            assert(v.regions().contains(r));
            assert(v.alloc_set().contains(r));
            assert(r != q);
            assert(disjoint(r, q));
            assert(w.alloc_set().contains(r));
            assert(w.alloc_set().contains(p));
            assert(w.regions().contains(r) && w.regions().contains(p));
        }
        assert(w.regions().contains(p));
    } else {
        lemma_allocate_at_end(v, n);
        lemma_to_set_push(v.pointers, p);
        assert forall|i: int| 0 <= i < v.pointers.len() implies disjoint(#[trigger] v.pointers[i], p) by {
            assert(v.regions().contains(v.pointers[i]));
        }
        assert(w.regions().contains(p));
    }
    if v.pointers.contains(p) {
        let i = choose|i: int| 0 <= i < v.pointers.len() && v.pointers[i] == p;
        assert(disjoint(v.pointers[i], p));
    }
}

/// What an allocation of `n` slots leaves: the range handed out has `n` slots; the
/// live ranges, it among them, never overlap, each lies inside the used part of the
/// buffer, and that part ends where the last live range ends; and either the range
/// starts at the old end and the buffer grows by `n`, or it lies in freed space below
/// the old end and the buffer keeps its size.
pub proof fn lemma_allocate_layout(v: AllocatorView, n: usize)
    requires
        v.wf(),
        n > 0,
        allocates_in_place(v, n as int) || v.len + n <= usize::MAX,
    ensures
        ({
            let (w, p) = spec_allocate(v, n);
            &&& p.len == n
            &&& w.pointers.to_set() == v.pointers.to_set().insert(p)
            &&& forall|i: int, j: int|
                0 <= i < w.pointers.len() && 0 <= j < w.pointers.len() && i != j ==> disjoint(
                    #[trigger] w.pointers[i],
                    #[trigger] w.pointers[j],
                )
            &&& forall|i: int| 0 <= i < w.pointers.len() ==> #[trigger] end(w.pointers[i]) <= w.len
            &&& w.pointers.len() > 0 && end(w.pointers.last()) == w.len
            &&& (p.first == v.len && w.len == v.len + n) || (end(p) <= v.len && w.len == v.len && forall|i: int|
                0 <= i < v.pointers.len() ==> disjoint(#[trigger] v.pointers[i], p))
        }),
{
    let (w, p) = spec_allocate(v, n);
    lemma_allocate_fresh(v, n);
    lemma_allocate_reuses_before_growing(v, n);
    lemma_live_ranges_disjoint(w);
    assert(w.pointers.to_set().contains(p));
    if !allocates_in_place(v, n as int) {
        assert(p.first == v.len);
    }
}

/// An allocation reuses a pending range when one is large enough, and only then
/// grows the buffer, by exactly the slots handed out.
pub proof fn lemma_allocate_reuses_before_growing(v: AllocatorView, n: usize)
    requires
        allocates_in_place(v, n as int) || v.len + n <= usize::MAX,
    ensures
        allocates_in_place(v, n as int) ==> spec_allocate(v, n).0.len == v.len,
        !allocates_in_place(v, n as int) ==> spec_allocate(v, n).1.first == v.len
            && spec_allocate(v, n).0.len == v.len + n,
{
}

/// Freeing a live range takes exactly that range out of the live ones, never grows
/// the buffer, and once no range is live the buffer is empty.
pub proof fn lemma_free_releases(v: AllocatorView, p: BatchBufferPointer)
    requires
        v.wf(),
        v.pointers.contains(p),
    ensures
        spec_free(v, p).wf(),
        spec_free(v, p).pointers.to_set() == v.pointers.to_set().remove(p),
        spec_free(v, p).len <= v.len,
        spec_free(v, p).pointers.len() == 0 ==> spec_free(v, p).len == 0,
{
    let w = spec_free(v, p);
    lemma_free_wf(v, p);
    if w.pointers.len() > 0 {
        let l = w.pointers.last();
        assert(w.alloc_set().contains(l));
        assert(v.alloc_set().contains(l));
        lemma_wf_regions_basic(v);
        let i = choose|i: int| 0 <= i < v.pointers.len() && v.pointers[i] == l;
        assert(v.regions().contains(v.pointers[i]));
    }
}

/// Freeing the range an allocation handed out gives back the live ranges there
/// were before the allocation.
pub proof fn lemma_free_after_allocate(v: AllocatorView, n: usize)
    requires
        v.wf(),
        n > 0,
        allocates_in_place(v, n as int) || v.len + n <= usize::MAX,
    ensures
        spec_free(spec_allocate(v, n).0, spec_allocate(v, n).1).pointers.to_set() == v.pointers.to_set(),
{
    let (w, p) = spec_allocate(v, n);
    lemma_allocate_fresh(v, n);
    assert(w.pointers.to_set().contains(p));
    lemma_free_releases(w, p);
    assert(v.pointers.to_set().insert(p).remove(p) =~= v.pointers.to_set());
}

/// With no event waiting, the first event after an allocation is the write of the
/// range it handed out.
pub proof fn lemma_event_after_allocate(v: AllocatorView, n: usize)
    requires
        v.wf(),
        n > 0,
        allocates_in_place(v, n as int) || v.len + n <= usize::MAX,
        v.events.len() == 0,
    ensures
        spec_pop_event(spec_allocate(v, n).0).1 == Some(BatchBufferAllocatorEvent::Write(spec_allocate(v, n).1)),
        spec_pop_event(spec_allocate(v, n).0).0.events.len() == 0,
{
    let (w, p) = spec_allocate(v, n);
    lemma_allocate_fresh(v, n);
    lemma_live_ranges_disjoint(w);
    assert(w.pointers.to_set().contains(p));
    let j = choose|j: int| 0 <= j < w.pointers.len() && w.pointers[j] == p;
    lemma_pointer_index_from(w.pointers, p.first as int, 0);
    let r = pointer_index_from(w.pointers, p.first as int, 0);
    assert(r != -1);
    if r != j {
        assert(w.pointers[r].first != w.pointers[j].first);
    }
    assert(w.events[0] == Event::Write { first: p.first });
}

/// After a repacking of the ranges `s`, the live ranges have the lengths of `s`, in
/// the same order, start at 0 and follow each other with no gap; nothing is pending
/// and the buffer is exactly as long as the ranges together.
pub proof fn lemma_repacked_layout(v: AllocatorView, s: Seq<BatchBufferPointer>)
    requires
        repacked(v, s),
    ensures
        v.pointers.len() == s.len(),
        forall|i: int| 0 <= i < s.len() ==> #[trigger] v.pointers[i].len == s[i].len,
        s.len() > 0 ==> v.pointers[0].first == 0,
        forall|i: int| 0 < i < s.len() ==> #[trigger] v.pointers[i].first == end(v.pointers[i - 1]),
        v.groups.len() == 0,
        v.len == sum_lens(s),
{
    if s.len() > 0 {
        assert(s.take(0) =~= Seq::<BatchBufferPointer>::empty());
    }
    assert forall|i: int| 0 < i < s.len() implies #[trigger] v.pointers[i].first == end(v.pointers[i - 1]) by {
        lemma_sum_lens_take(s, i);
        lemma_sum_lens_nonneg(s.take(i - 1));
        lemma_sum_lens_prefix_mono(s, i, s.len() as int);
        assert(s.take(s.len() as int) =~= s);
    }
}

/// `i` is one of the entries of `o`.
pub open spec fn occurs(o: Seq<int>, i: int) -> bool {
    exists|a: int| 0 <= a < o.len() && o[a] == i
}

/// Keys in `o` come in increasing order, equal keys by increasing index.
pub open spec fn stably_sorted(keys: Seq<i64>, o: Seq<int>) -> bool {
    forall|a: int, b: int|
        0 <= a < b < o.len() ==> keys[#[trigger] o[a]] < keys[#[trigger] o[b]] || (keys[o[a]] == keys[o[b]]
            && o[a] < o[b])
}

proof fn lemma_key_insert_index_bounds(keys: Seq<i64>, order: Seq<int>, key: i64, i: int)
    requires
        0 <= i <= order.len(),
    ensures
        ({
            let r = key_insert_index_from(keys, order, key, i);
            &&& i <= r <= order.len()
            &&& forall|j: int| i <= j < r ==> keys[#[trigger] order[j]] <= key
            &&& r < order.len() ==> keys[order[r]] > key
        }),
    decreases order.len() - i,
{
    if i < order.len() && keys[order[i]] <= key {
        lemma_key_insert_index_bounds(keys, order, key, i + 1);
    }
}

proof fn lemma_stable_order_sorted(keys: Seq<i64>, n: nat)
    requires
        n <= keys.len(),
    ensures
        stable_order(keys, n).len() == n,
        forall|i: int| 0 <= i < n ==> 0 <= #[trigger] stable_order(keys, n)[i] < n,
        stably_sorted(keys, stable_order(keys, n)),
        forall|i: int| 0 <= i < n ==> #[trigger] occurs(stable_order(keys, n), i),
    decreases n,
{
    lemma_stable_order_range(keys, n);
    if n > 0 {
        let prev = stable_order(keys, (n - 1) as nat);
        lemma_stable_order_sorted(keys, (n - 1) as nat);
        let key = keys[n - 1];
        lemma_key_insert_index_bounds(keys, prev, key, 0);
        let pos = key_insert_index_from(keys, prev, key, 0);
        let o = stable_order(keys, n);
        assert(o == prev.insert(pos, n - 1));
        assert forall|j: int| pos <= j < prev.len() implies keys[#[trigger] prev[j]] > key by {
            if j > pos {
                assert(keys[prev[pos]] < keys[prev[j]] || keys[prev[pos]] == keys[prev[j]]);
            }
        }
        assert forall|a: int, b: int| 0 <= a < b < o.len() implies keys[#[trigger] o[a]] < keys[#[trigger] o[b]]
            || (keys[o[a]] == keys[o[b]] && o[a] < o[b]) by {
            let pa = if a < pos { a } else { a - 1 };
            let pb = if b < pos { b } else { b - 1 };
            if a == pos {
                assert(o[b] == prev[pb]);
                assert(keys[prev[pb]] > key);
            } else if b == pos {
                assert(o[a] == prev[pa]);
                assert(0 <= prev[pa] < n - 1);
            } else {
                assert(o[a] == prev[pa]);
                assert(o[b] == prev[pb]);
                assert(pa < pb);
            }
        }
        assert forall|i: int| 0 <= i < n implies #[trigger] occurs(o, i) by {
            if i == n - 1 {
                assert(o[pos] == i);
            } else {
                assert(occurs(prev, i));
                let b = choose|b: int| 0 <= b < prev.len() && #[trigger] prev[b] == i;
                if b < pos {
                    assert(o[b] == i);
                } else {
                    assert(o[b + 1] == i);
                }
            }
        }
    }
}

/// Sorting ranges by keys is a stable sort: each range comes out exactly once, by
/// increasing key, and ranges of equal key keep their order.
pub proof fn lemma_sorted_by_keys(s: Seq<BatchBufferPointer>, keys: Seq<i64>)
    requires
        keys.len() == s.len(),
    ensures
        ({
            let o = stable_order(keys, s.len());
            let t = sorted_by_keys(s, keys);
            &&& o.len() == s.len() && t.len() == s.len()
            &&& forall|a: int| 0 <= a < s.len() ==> 0 <= #[trigger] o[a] < s.len() && t[a] == s[o[a]]
            &&& forall|a: int, b: int| 0 <= a < b < s.len() ==> #[trigger] o[a] != #[trigger] o[b]
            &&& forall|i: int| 0 <= i < s.len() ==> #[trigger] occurs(o, i)
            &&& stably_sorted(keys, o)
        }),
{
    lemma_stable_order_sorted(keys, s.len());
}

/// `s` with `data` written over it from `offset` on.
pub open spec fn written<T>(s: Seq<T>, offset: int, data: Seq<T>) -> Seq<T> {
    s.subrange(0, offset) + data + s.subrange(offset + data.len(), s.len() as int)
}

/// A buffer that batch data is written into (a GPU buffer, or a plain vector in
/// tests); implemented by the users of the library, whose implementations are held
/// to the contracts below.
pub trait BufferTrait<'a, TDataType> {
    type Resizer: 'a;
    type Writer: 'a;
    type Copier: 'a;

    /// The slots of the buffer.
    spec fn spec_contents(&self) -> Seq<TDataType>;

    /// The value a cleared slot holds.
    spec fn spec_cleared() -> TDataType;

    /// Gives the buffer `len` slots, keeping those it had below `len`.
    fn resize(&mut self, resizer: Self::Resizer, len: usize)
        ensures
            final(self).spec_contents().len() == len,
            forall|i: int|
                0 <= i < len && i < old(self).spec_contents().len() ==> #[trigger] final(self).spec_contents()[i]
                    == old(self).spec_contents()[i],
    ;

    /// Writes `data` from slot `offset` on, when it fits in the buffer.
    fn write(&mut self, writer: Self::Writer, data: &[TDataType], offset: usize)
        ensures
            offset + data@.len() <= old(self).spec_contents().len() ==> final(self).spec_contents() == written(
                old(self).spec_contents(),
                offset as int,
                data@,
            ),
    ;

    fn copy(&mut self, copy: Self::Copier, from: usize, to: usize, len: usize);

    /// Number of slots.
    fn len(&self) -> (r: usize)
        ensures
            r == self.spec_contents().len(),
    ;

    /// Whether the buffer has no slot.
    fn is_empty(&self) -> (r: bool)
        ensures
            r == (self.spec_contents().len() == 0),
    ;

    /// Clears the `len` slots from `offset` on, when they lie in the buffer.
    fn clear(&mut self, writer: Self::Writer, offset: usize, len: usize)
        ensures
            offset + len <= old(self).spec_contents().len() ==> final(self).spec_contents()
                == written(old(self).spec_contents(), offset as int, Seq::new(len as nat, |i: int| Self::spec_cleared())),
    ;
}

/// A buffer addressed by the ranges of a `BatchBufferAllocator`.
pub struct BatchBuffer<TBuffer, TDataType> {
    buffer: TBuffer,
    _phantom: std::marker::PhantomData<TDataType>,
}

impl<'a, TBuffer, TDataType> BatchBuffer<TBuffer, TDataType> where
    TBuffer: BufferTrait<'a, TDataType>,
 {
    /// The wrapped buffer.
    pub closed spec fn spec_buffer(&self) -> TBuffer {
        self.buffer
    }

    /// The slots of the wrapped buffer.
    pub open spec fn contents(&self) -> Seq<TDataType> {
        self.spec_buffer().spec_contents()
    }

    pub fn new(buffer: TBuffer) -> (r: Self)
        ensures
            r.spec_buffer() == buffer,
    {
        Self { buffer, _phantom: std::marker::PhantomData }
    }

    /// Writes `data` into the buffer from the start of `pointer`; the data must cover
    /// the range. Data that fits in the buffer is written there whole.
    pub fn write(&mut self, writer: TBuffer::Writer, pointer: BatchBufferPointer, data: &[TDataType])
        requires
            pointer.len <= data@.len(),
        ensures
            pointer.first + data@.len() <= old(self).contents().len() ==> final(self).contents() == written(
                old(self).contents(),
                pointer.first as int,
                data@,
            ),
    {
        self.buffer.write(writer, data, pointer.first);
    }

    /// Clears the slots of `pointer`, when it lies in the buffer.
    pub fn clear(&mut self, writer: TBuffer::Writer, pointer: BatchBufferPointer)
        ensures
            end(pointer) <= old(self).contents().len() ==> final(self).contents() == written(
                old(self).contents(),
                pointer.first as int,
                Seq::new(pointer.len as nat, |i: int| TBuffer::spec_cleared()),
            ),
    {
        self.buffer.clear(writer, pointer.first, pointer.len);
    }

    /// Gives the buffer `len` slots, keeping those it had below `len`.
    pub fn resize(&mut self, resizer: TBuffer::Resizer, len: usize)
        ensures
            final(self).contents().len() == len,
            forall|i: int|
                0 <= i < len && i < old(self).contents().len() ==> #[trigger] final(self).contents()[i]
                    == old(self).contents()[i],
    {
        self.buffer.resize(resizer, len);
    }

    /// Number of slots of the buffer.
    pub fn len(&self) -> (r: usize)
        ensures
            r == self.contents().len(),
    {
        self.buffer.len()
    }

    /// Whether the buffer has no slot.
    pub fn is_empty(&self) -> (r: bool)
        ensures
            r == (self.contents().len() == 0),
    {
        self.buffer.is_empty()
    }

    pub fn buffer(&self) -> (r: &TBuffer)
        ensures
            *r == self.spec_buffer(),
    {
        &self.buffer
    }
}

} // verus!
