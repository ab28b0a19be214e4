//! Where the objects of a batch sit in the index and vertex buffers.
//!
//! Each object has one range of the index buffer and one range of the vertex
//! buffer, shared by all its vertex attributes. The manager keeps the two
//! allocators, turns their events into events about objects, marks what has to be
//! written again, and grows the buffers when they get too small. The data of the
//! objects is kept by the caller: the manager only needs its lengths.
use vstd::prelude::*;
use std::collections::{BTreeSet, HashMap, VecDeque};
use crate::buffer::{
    AllocatorView, BatchBufferAllocator, BatchBufferAllocatorEvent, BatchBufferPointer, Event,
    allocates_in_place, packed, sorted_by_keys, spec_allocate, spec_free, spec_pop_event, sum_lens,
    write_events,
};

verus! {

broadcast use {vstd::std_specs::btree::group_btree_axioms, vstd::laws_cmp::group_laws_cmp, vstd::std_specs::hash::group_hash_axioms};

pub type BatchAttributeIndex = u32;

/// Draw order of objects added without one.
pub const DEFAULT_ORDER: i32 = 2147483647i32;

/// Identifier of a batch object.
#[derive(Copy, Clone, Debug, PartialEq, Eq, Hash, Structural)]
pub struct BatchObjectId(pub u64);

impl BatchObjectId {
    /// The identifier that follows this one.
    fn next(&self) -> (r: Self)
        requires
            self.0 < u64::MAX,
        ensures
            r.0 == self.0 + 1,
    {
        BatchObjectId(self.0 + 1)
    }
}

/// What the owner of the buffers has to do to follow the manager.
#[derive(Debug)]
pub enum BatchObjectEvent {
    Add { id: BatchObjectId },
    Remove { id: BatchObjectId },
    WriteToIndexBuffer { id: BatchObjectId },
    WriteToVertexBuffer { id: BatchObjectId, attribute: BatchAttributeIndex },
    ClearToIndexBuffer { pointer: BatchBufferPointer },
    ClearToVertexBuffer { pointer: BatchBufferPointer },
    ResizeIndexBuffer { len: usize },
    ResizeVertexBuffer { len: usize },
}

/// Where an object sits: its index range, its vertex range (one slot per vertex,
/// the same for every attribute), how many vertex attributes it has, and its draw
/// order.
#[derive(Copy, Clone, Debug)]
pub struct BatchObjectRecord {
    pub index_pointer: BatchBufferPointer,
    pub vertex_pointer: BatchBufferPointer,
    pub attributes: u32,
    pub order: i32,
}

/// The abstract state of a manager.
pub struct ManagerView {
    /// The id the next object gets.
    pub next_id: u64,
    /// The objects, by id.
    pub objects: Map<u64, BatchObjectRecord>,
    /// Objects whose indices are marked to be written again.
    pub index_rewrites: Set<u64>,
    /// Attributes of objects marked to be written again.
    pub vertex_rewrites: Set<(u64, u32)>,
    pub index: AllocatorView,
    pub vertex: AllocatorView,
    /// Queued events, oldest first.
    pub events: Seq<BatchObjectEvent>,
    /// Length of the index buffer.
    pub index_len: usize,
    /// Length of the vertex buffer.
    pub vertex_len: usize,
    /// Whether the index ranges are to be sorted by draw order.
    pub should_sort: bool,
}

/// Keeps the ranges of the objects of a batch.
pub struct BatchObjectManager {
    next_id: BatchObjectId,
    objects: HashMap<u64, BatchObjectRecord>,
    ids_by_index_first: HashMap<usize, u64>,
    ids_by_vertex_first: HashMap<usize, u64>,
    index_rewrites: BTreeSet<u64>,
    vertex_rewrites: BTreeSet<(u64, u32)>,
    index_allocator: BatchBufferAllocator,
    vertex_allocator: BatchBufferAllocator,
    events: VecDeque<BatchObjectEvent>,
    index_len: usize,
    vertex_len: usize,
    should_sort_indices: bool,
}

impl View for BatchObjectManager {
    type V = ManagerView;

    closed spec fn view(&self) -> ManagerView {
        ManagerView {
            next_id: self.next_id.0,
            objects: self.objects@,
            index_rewrites: self.index_rewrites@,
            vertex_rewrites: self.vertex_rewrites@,
            index: self.index_allocator@,
            vertex: self.vertex_allocator@,
            events: self.events@,
            index_len: self.index_len,
            vertex_len: self.vertex_len,
            should_sort: self.should_sort_indices,
        }
    }
}

/// No reallocation waits in the queue of an allocator.
pub open spec fn no_reallocation(a: AllocatorView) -> bool {
    forall|i: int| 0 <= i < a.events.len() ==> !(#[trigger] a.events[i] is Reallocate)
}

/// The attribute keys of object `id`.
pub open spec fn attribute_keys(id: u64, attributes: u32) -> Set<(u64, u32)> {
    Set::new(|k: (u64, u32)| k.0 == id && k.1 < attributes)
}

/// The length a buffer gets when `used` slots of it are in use: twice that when it
/// is too short, else as it was.
pub open spec fn grown(len: usize, used: usize) -> usize {
    if used > len {
        (used * 2) as usize
    } else {
        len
    }
}

/// The order an object is drawn in.
pub open spec fn order_or_default(order: Option<i32>) -> i32 {
    match order {
        Some(o) => o,
        None => DEFAULT_ORDER,
    }
}

/// The state after adding an object, and its id: it gets the next id, an index range
/// and a vertex range; a buffer that became too short is grown to twice what is in
/// use; the object and all its attributes are marked to be written.
pub open spec fn spec_add(
    v: ManagerView,
    index_len: usize,
    vertex_len: usize,
    attributes: u32,
    order: Option<i32>,
) -> (ManagerView, BatchObjectId) {
    let id = v.next_id;
    let (ia, ip) = spec_allocate(v.index, index_len);
    let (va, vp) = spec_allocate(v.vertex, vertex_len);
    let e1 = if ia.len > v.index_len {
        v.events.push(BatchObjectEvent::ResizeIndexBuffer { len: grown(v.index_len, ia.len) })
    } else {
        v.events
    };
    let e2 = if va.len > v.vertex_len {
        e1.push(BatchObjectEvent::ResizeVertexBuffer { len: grown(v.vertex_len, va.len) })
    } else {
        e1
    };
    (
        ManagerView {
            next_id: (id + 1) as u64,
            objects: v.objects.insert(
                id,
                BatchObjectRecord {
                    index_pointer: ip,
                    vertex_pointer: vp,
                    attributes,
                    order: order_or_default(order),
                },
            ),
            index_rewrites: v.index_rewrites.insert(id),
            vertex_rewrites: v.vertex_rewrites.union(attribute_keys(id, attributes)),
            index: ia,
            vertex: va,
            events: e2.push(BatchObjectEvent::Add { id: BatchObjectId(id) }),
            index_len: grown(v.index_len, ia.len),
            vertex_len: grown(v.vertex_len, va.len),
            should_sort: v.should_sort || order is Some,
        },
        BatchObjectId(id),
    )
}

/// Whether an object of these lengths can be added without running out of ids or of
/// addressable slots. Both lengths must be positive: the allocators know a range by
/// its first slot, and an empty range would share it with the next range handed out,
/// so that freeing either would lose the other.
pub open spec fn can_add(v: ManagerView, index_len: usize, vertex_len: usize) -> bool {
    &&& index_len > 0
    &&& vertex_len > 0
    &&& v.next_id < u64::MAX
    &&& allocates_in_place(v.index, index_len as int) || v.index.len + index_len <= usize::MAX
    &&& allocates_in_place(v.vertex, vertex_len as int) || v.vertex.len + vertex_len <= usize::MAX
    &&& spec_allocate(v.index, index_len).0.len > v.index_len ==> spec_allocate(v.index, index_len).0.len * 2 <= usize::MAX
    &&& spec_allocate(v.vertex, vertex_len).0.len > v.vertex_len ==> spec_allocate(v.vertex, vertex_len).0.len * 2
        <= usize::MAX
}

/// A range handed out next to the live ones starts where none of them does.
proof fn lemma_fresh_first(a: AllocatorView, p: BatchBufferPointer, q: BatchBufferPointer)
    requires
        a.wf(),
        a.pointers.contains(q),
        p.len > 0,
        forall|i: int| 0 <= i < a.pointers.len() ==> crate::buffer::disjoint(#[trigger] a.pointers[i], p),
    ensures
        q.first != p.first,
{
    crate::buffer::lemma_live_ranges_disjoint(a);
    let i = choose|i: int| 0 <= i < a.pointers.len() && a.pointers[i] == q;
    assert(crate::buffer::disjoint(a.pointers[i], p));
    assert(a.pointers[i].len > 0);
}

/// The state after removing object `id`, and its record: its ranges are freed, its
/// marks dropped, and a removal is queued.
pub open spec fn spec_remove(v: ManagerView, id: u64) -> (ManagerView, Option<BatchObjectRecord>) {
    if !v.objects.contains_key(id) {
        (v, None)
    } else {
        let rec = v.objects[id];
        (
            ManagerView {
                objects: v.objects.remove(id),
                index_rewrites: v.index_rewrites.remove(id),
                vertex_rewrites: v.vertex_rewrites.difference(attribute_keys(id, rec.attributes)),
                index: spec_free(v.index, rec.index_pointer),
                vertex: spec_free(v.vertex, rec.vertex_pointer),
                events: v.events.push(BatchObjectEvent::Remove { id: BatchObjectId(id) }),
                ..v
            },
            Some(rec),
        )
    }
}

/// The state after attribute `a` of object `id` changed: unless it is marked
/// already, it is marked and a write of it is queued.
pub open spec fn spec_mark(v: ManagerView, id: u64, a: u32) -> ManagerView {
    if v.vertex_rewrites.contains((id, a)) {
        v
    } else {
        ManagerView {
            vertex_rewrites: v.vertex_rewrites.insert((id, a)),
            events: v.events.push(BatchObjectEvent::WriteToVertexBuffer { id: BatchObjectId(id), attribute: a }),
            ..v
        }
    }
}

/// The state after attributes `0..n` of object `id` changed, in that order.
pub open spec fn spec_mark_upto(v: ManagerView, id: u64, n: nat) -> ManagerView
    decreases n,
{
    if n == 0 {
        v
    } else {
        spec_mark(spec_mark_upto(v, id, (n - 1) as nat), id, (n - 1) as u32)
    }
}

/// The state after the index range of object `id` is replaced by one of `len`
/// slots: the old range is freed, a new one allocated, and the object marked.
pub open spec fn spec_move_indices(v: ManagerView, id: u64, len: usize) -> ManagerView {
    let rec = v.objects[id];
    let (ia, ip) = spec_allocate(spec_free(v.index, rec.index_pointer), len);
    ManagerView {
        objects: v.objects.insert(id, BatchObjectRecord { index_pointer: ip, ..rec }),
        index_rewrites: v.index_rewrites.insert(id),
        index: ia,
        ..v
    }
}

/// The state after the vertex range of object `id` is replaced by one of `len`
/// slots: the old range is freed, a new one allocated, and all attributes marked.
pub open spec fn spec_move_vertices(v: ManagerView, id: u64, len: usize) -> ManagerView {
    let rec = v.objects[id];
    let (va, vp) = spec_allocate(spec_free(v.vertex, rec.vertex_pointer), len);
    ManagerView {
        objects: v.objects.insert(id, BatchObjectRecord { vertex_pointer: vp, ..rec }),
        vertex_rewrites: v.vertex_rewrites.union(attribute_keys(id, rec.attributes)),
        vertex: va,
        ..v
    }
}

/// Marking attributes of an object keeps the objects as they are.
proof fn lemma_mark_upto_keeps(v: ManagerView, id: u64, n: nat)
    ensures
        spec_mark_upto(v, id, n).should_sort == v.should_sort,
        spec_mark_upto(v, id, n).objects == v.objects,
        spec_mark_upto(v, id, n).index == v.index,
        spec_mark_upto(v, id, n).vertex == v.vertex,
    decreases n,
{
    if n > 0 {
        lemma_mark_upto_keeps(v, id, (n - 1) as nat);
    }
}

/// A sort of the index ranges, once requested, is never dropped before the next
/// `pop_event`: adding an object requests one when the object has a draw order and
/// keeps a request made before; removing an object, marking its attributes, and
/// giving it new index or vertex ranges keep the request as it is.
pub proof fn lemma_sort_request_kept(
    v: ManagerView,
    index_len: usize,
    vertex_len: usize,
    attributes: u32,
    order: Option<i32>,
    id: u64,
    a: u32,
    n: nat,
    len: usize,
)
    ensures
        spec_add(v, index_len, vertex_len, attributes, order).0.should_sort == (v.should_sort || order is Some),
        spec_remove(v, id).0.should_sort == v.should_sort,
        spec_mark(v, id, a).should_sort == v.should_sort,
        spec_mark_upto(v, id, n).should_sort == v.should_sort,
        spec_move_indices(v, id, len).should_sort == v.should_sort,
        spec_move_vertices(v, id, len).should_sort == v.should_sort,
{
    lemma_mark_upto_keeps(v, id, n);
}

/// Once an object with a draw order is added, the next `pop_event` sorts the index
/// ranges by draw order, however many objects without one are added after it: it
/// acts as on the state with the ranges sorted.
pub proof fn lemma_ordered_add_sorts_at_next_pop(
    vs: Seq<ManagerView>,
    adds: Seq<(usize, usize, u32, Option<i32>)>,
    k: int,
)
    requires
        vs.len() == adds.len() + 1,
        0 <= k < adds.len(),
        adds[k].3 is Some,
        forall|i: int|
            0 <= i < adds.len() ==> vs[i + 1] == spec_add(
                vs[i],
                #[trigger] adds[i].0,
                adds[i].1,
                adds[i].2,
                adds[i].3,
            ).0,
    ensures
        vs.last().should_sort,
        spec_pop(vs.last()) == spec_pop(spec_sort(vs.last())),
    decreases adds.len(),
{
    let n = adds.len() as int;
    let i = n - 1;
    assert(vs[i + 1] == spec_add(vs[i], adds[i].0, adds[i].1, adds[i].2, adds[i].3).0);
    lemma_sort_request_kept(vs[i], adds[i].0, adds[i].1, adds[i].2, adds[i].3, 0, 0, 0, 0);
    if k < i {
        let ws = vs.drop_last();
        let bs = adds.drop_last();
        assert forall|j: int| 0 <= j < bs.len() implies ws[j + 1] == spec_add(
            ws[j],
            #[trigger] bs[j].0,
            bs[j].1,
            bs[j].2,
            bs[j].3,
        ).0 by {
            assert(vs[j + 1] == spec_add(vs[j], adds[j].0, adds[j].1, adds[j].2, adds[j].3).0);
        }
        lemma_ordered_add_sorts_at_next_pop(ws, bs, k);
        assert(ws.last() == vs[i]);
    }
}

/// The object whose index range is `p`.
pub open spec fn index_owner(v: ManagerView, p: BatchBufferPointer) -> u64 {
    choose|id: u64| v.objects.contains_key(id) && v.objects[id].index_pointer == p
}

/// The object whose vertex range is `p`.
pub open spec fn vertex_owner(v: ManagerView, p: BatchBufferPointer) -> u64 {
    choose|id: u64| v.objects.contains_key(id) && v.objects[id].vertex_pointer == p
}

/// The draw orders of the objects of the live index ranges, in range order.
pub open spec fn order_keys(v: ManagerView) -> Seq<i64> {
    Seq::new(v.index.pointers.len(), |i: int| v.objects[index_owner(v, v.index.pointers[i])].order as i64)
}

/// Where `p` is in `s`.
pub open spec fn position_in(s: Seq<BatchBufferPointer>, p: BatchBufferPointer) -> int {
    choose|k: int| 0 <= k < s.len() && s[k] == p
}

/// The state after the index ranges are sorted by the draw order of their objects
/// (a stable sort) and laid end to end from 0: each object gets the range at its
/// new place and is marked, and a write of every range is queued.
pub open spec fn spec_sort(v: ManagerView) -> ManagerView {
    let s = sorted_by_keys(v.index.pointers, order_keys(v));
    let t = packed(s);
    ManagerView {
        objects: Map::new(
            |id: u64| v.objects.contains_key(id),
            |id: u64| BatchObjectRecord { index_pointer: t[position_in(s, v.objects[id].index_pointer)], ..v.objects[id] },
        ),
        index_rewrites: v.index_rewrites.union(v.objects.dom()),
        index: AllocatorView {
            pointers: t,
            groups: Seq::empty(),
            events: write_events(t),
            len: sum_lens(s) as usize,
        },
        should_sort: false,
        ..v
    }
}

/// The record of object `id` once the first `k` ranges of the sorted `sq` moved.
pub open spec fn moved_record(v: ManagerView, sq: Seq<BatchBufferPointer>, id: u64, k: int) -> BatchObjectRecord {
    if position_in(sq, v.objects[id].index_pointer) < k {
        BatchObjectRecord { index_pointer: packed(sq)[position_in(sq, v.objects[id].index_pointer)], ..v.objects[id] }
    } else {
        v.objects[id]
    }
}

/// The objects moved once the first `k` ranges of the sorted `sq` moved.
pub open spec fn moved_ids(v: ManagerView, sq: Seq<BatchBufferPointer>, k: int) -> Set<u64> {
    Set::new(|id: u64| v.objects.contains_key(id) && position_in(sq, v.objects[id].index_pointer) < k)
}

/// The writes of all attributes of object `id`.
pub open spec fn vertex_writes(id: u64, attributes: u32) -> Seq<BatchObjectEvent> {
    Seq::new(attributes as nat, |a: int| BatchObjectEvent::WriteToVertexBuffer { id: BatchObjectId(id), attribute: a as u32 })
}

/// The state after the queued events of the index allocator are turned into object
/// events, oldest first: a write of a range becomes a write of the indices of the
/// object that holds it, a clear stays a clear; it stops after a write of a range
/// that is no longer live.
pub open spec fn drain_index(v: ManagerView) -> ManagerView
    decreases v.index.events.len(),
{
    if v.index.events.len() == 0 {
        v
    } else {
        let a = spec_pop_event(v.index).0;
        let w = ManagerView { index: a, ..v };
        match spec_pop_event(v.index).1 {
            Some(BatchBufferAllocatorEvent::Write(p)) => drain_index(
                ManagerView {
                    events: w.events.push(BatchObjectEvent::WriteToIndexBuffer { id: BatchObjectId(index_owner(v, p)) }),
                    ..w
                },
            ),
            Some(BatchBufferAllocatorEvent::Clear(p)) => drain_index(
                ManagerView { events: w.events.push(BatchObjectEvent::ClearToIndexBuffer { pointer: p }), ..w },
            ),
            Some(BatchBufferAllocatorEvent::ReallocateAll { .. }) => drain_index(w),
            None => w,
        }
    }
}

/// The same for the vertex allocator: a write of a range becomes a write of every
/// attribute of the object that holds it, in attribute order.
pub open spec fn drain_vertex(v: ManagerView) -> ManagerView
    decreases v.vertex.events.len(),
{
    if v.vertex.events.len() == 0 {
        v
    } else {
        let a = spec_pop_event(v.vertex).0;
        let w = ManagerView { vertex: a, ..v };
        match spec_pop_event(v.vertex).1 {
            Some(BatchBufferAllocatorEvent::Write(p)) => drain_vertex(
                ManagerView {
                    events: w.events + vertex_writes(vertex_owner(v, p), v.objects[vertex_owner(v, p)].attributes),
                    ..w
                },
            ),
            Some(BatchBufferAllocatorEvent::Clear(p)) => drain_vertex(
                ManagerView { events: w.events.push(BatchObjectEvent::ClearToVertexBuffer { pointer: p }), ..w },
            ),
            Some(BatchBufferAllocatorEvent::ReallocateAll { .. }) => drain_vertex(w),
            None => w,
        }
    }
}

/// The state after taking the oldest event, and the event: the index ranges are
/// sorted first if an object with a draw order was added, then the allocators'
/// events are turned into object events; a write handed out drops its mark.
pub open spec fn spec_pop(v: ManagerView) -> (ManagerView, Option<BatchObjectEvent>) {
    let v1 = if v.should_sort {
        spec_sort(v)
    } else {
        v
    };
    let v2 = drain_vertex(drain_index(v1));
    if v2.events.len() == 0 {
        (v2, None)
    } else {
        let w = ManagerView { events: v2.events.drop_first(), ..v2 };
        match v2.events[0] {
            BatchObjectEvent::WriteToIndexBuffer { id } => (
                ManagerView { index_rewrites: w.index_rewrites.remove(id.0), ..w },
                Some(v2.events[0]),
            ),
            BatchObjectEvent::WriteToVertexBuffer { id, attribute } => (
                ManagerView { vertex_rewrites: w.vertex_rewrites.remove((id.0, attribute)), ..w },
                Some(v2.events[0]),
            ),
            _ => (w, Some(v2.events[0])),
        }
    }
}

impl ManagerView {
    /// The state that the contracts speak of is consistent: live ranges are the
    /// objects' ranges, ids come from the counter, marks are of objects.
    pub open spec fn wf(self) -> bool {
        &&& self.index.wf()
        &&& self.vertex.wf()
        &&& no_reallocation(self.index)
        &&& no_reallocation(self.vertex)
        &&& forall|id: u64| #[trigger] self.objects.contains_key(id) ==> id < self.next_id
        &&& forall|id: u64| #[trigger] self.objects.contains_key(id) ==> self.index.pointers.contains(self.objects[id].index_pointer)
            && self.vertex.pointers.contains(self.objects[id].vertex_pointer)
        &&& forall|id: u64| #[trigger] self.index_rewrites.contains(id) ==> self.objects.contains_key(id)
        &&& forall|k: (u64, u32)| #[trigger] self.vertex_rewrites.contains(k) ==> self.objects.contains_key(k.0)
            && k.1 < self.objects[k.0].attributes
    }
}

impl BatchObjectManager {
    /// The maps from range starts to objects invert the objects' ranges, and cover
    /// every live range.
    pub closed spec fn wf(&self) -> bool {
        let v = self@;
        &&& v.wf()
        &&& forall|id: u64| #[trigger] v.objects.contains_key(id) ==>
            self.ids_by_index_first@.contains_key(v.objects[id].index_pointer.first)
            && self.ids_by_index_first@[v.objects[id].index_pointer.first] == id
            && self.ids_by_vertex_first@.contains_key(v.objects[id].vertex_pointer.first)
            && self.ids_by_vertex_first@[v.objects[id].vertex_pointer.first] == id
        &&& forall|f: usize| #[trigger] self.ids_by_index_first@.contains_key(f) ==>
            v.objects.contains_key(self.ids_by_index_first@[f])
            && v.objects[self.ids_by_index_first@[f]].index_pointer.first == f
        &&& forall|f: usize| #[trigger] self.ids_by_vertex_first@.contains_key(f) ==>
            v.objects.contains_key(self.ids_by_vertex_first@[f])
            && v.objects[self.ids_by_vertex_first@[f]].vertex_pointer.first == f
        &&& forall|i: int| 0 <= i < v.index.pointers.len() ==> self.ids_by_index_first@.contains_key(
            #[trigger] v.index.pointers[i].first,
        )
        &&& forall|i: int| 0 <= i < v.vertex.pointers.len() ==> self.ids_by_vertex_first@.contains_key(
            #[trigger] v.vertex.pointers[i].first,
        )
    }

    proof fn lemma_index_owner(&self, p: BatchBufferPointer)
        requires
            self.wf(),
            self@.index.pointers.contains(p),
        ensures
            self.ids_by_index_first@.contains_key(p.first),
            self.ids_by_index_first@[p.first] == index_owner(self@, p),
            self@.objects.contains_key(index_owner(self@, p)),
            self@.objects[index_owner(self@, p)].index_pointer == p,
    {
        let v = self@;
        crate::buffer::lemma_live_ranges_disjoint(v.index);
        let i = choose|i: int| 0 <= i < v.index.pointers.len() && v.index.pointers[i] == p;
        assert(self.ids_by_index_first@.contains_key(v.index.pointers[i].first));
        let id = self.ids_by_index_first@[p.first];
        let q = v.objects[id].index_pointer;
        let j = choose|j: int| 0 <= j < v.index.pointers.len() && v.index.pointers[j] == q;
        if i != j {
            assert(v.index.pointers[i].first != v.index.pointers[j].first);
        }
        assert(v.objects.contains_key(id) && v.objects[id].index_pointer == p);
        let o = index_owner(v, p);
        assert(self.ids_by_index_first@[v.objects[o].index_pointer.first] == o);
    }

    proof fn lemma_vertex_owner(&self, p: BatchBufferPointer)
        requires
            self.wf(),
            self@.vertex.pointers.contains(p),
        ensures
            self.ids_by_vertex_first@.contains_key(p.first),
            self.ids_by_vertex_first@[p.first] == vertex_owner(self@, p),
            self@.objects.contains_key(vertex_owner(self@, p)),
            self@.objects[vertex_owner(self@, p)].vertex_pointer == p,
    {
        let v = self@;
        crate::buffer::lemma_live_ranges_disjoint(v.vertex);
        let i = choose|i: int| 0 <= i < v.vertex.pointers.len() && v.vertex.pointers[i] == p;
        assert(self.ids_by_vertex_first@.contains_key(v.vertex.pointers[i].first));
        let id = self.ids_by_vertex_first@[p.first];
        let q = v.objects[id].vertex_pointer;
        let j = choose|j: int| 0 <= j < v.vertex.pointers.len() && v.vertex.pointers[j] == q;
        if i != j {
            assert(v.vertex.pointers[i].first != v.vertex.pointers[j].first);
        }
        assert(v.objects.contains_key(id) && v.objects[id].vertex_pointer == p);
        let o = vertex_owner(v, p);
        assert(self.ids_by_vertex_first@[v.objects[o].vertex_pointer.first] == o);
    }

    /// The draw orders of the objects of the live index ranges, in range order.
    fn collect_order_keys(&self) -> (r: Vec<i64>)
        requires
            self.wf(),
        ensures
            r@ == order_keys(self@),
    {
        let n = self.index_allocator.pointers().len();
        let mut keys: Vec<i64> = Vec::new();
        let mut i: usize = 0;
        while i < n
            invariant
                self.wf(),
                n == self@.index.pointers.len(),
                i <= n,
                keys@.len() == i,
                forall|j: int| 0 <= j < i ==> keys@[j] == #[trigger] order_keys(self@)[j],
            decreases n - i,
        {
            let p = self.index_allocator.pointers()[i];
            proof {
                assert(self@.index.pointers[i as int] == p);
                self.lemma_index_owner(p);
            }
            let id = *self.ids_by_index_first.get(&p.first).unwrap();
            let record = *self.objects.get(&id).unwrap();
            keys.push(record.order as i64);
            i = i + 1;
        }
        assert(keys@ =~= order_keys(self@));
        keys
    }

    /// What sorting the index ranges relies on: the sorted ranges are the live ones,
    /// each once, and each belongs to one object.
    proof fn lemma_sort_facts(&self)
        requires
            self.wf(),
        ensures
            ({
                let v = self@;
                let sq = sorted_by_keys(v.index.pointers, order_keys(v));
                let n = v.index.pointers.len();
                &&& sq.len() == n
                &&& forall|j: int| 0 <= j < n ==> position_in(sq, #[trigger] sq[j]) == j
                &&& forall|id: u64| #[trigger] v.objects.contains_key(id) ==> 0 <= position_in(sq, v.objects[id].index_pointer) < n
                    && sq[position_in(sq, v.objects[id].index_pointer)] == v.objects[id].index_pointer
                &&& forall|j: int| 0 <= j < n ==> self.ids_by_index_first@.contains_key(#[trigger] sq[j].first)
                    && self.ids_by_index_first@[sq[j].first] == index_owner(v, sq[j])
                    && v.objects.contains_key(index_owner(v, sq[j]))
                    && v.objects[index_owner(v, sq[j])].index_pointer == sq[j]
                &&& forall|id: u64| #[trigger] v.objects.contains_key(id)
                    ==> self.ids_by_index_first@[v.objects[id].index_pointer.first] == id
            }),
    {
        let v = self@;
        let pp = v.index.pointers;
        let n = pp.len();
        let sq = sorted_by_keys(pp, order_keys(v));
        crate::buffer::lemma_sorted_by_keys(pp, order_keys(v));
        crate::buffer::lemma_live_ranges_disjoint(v.index);
        let o = crate::buffer::stable_order(order_keys(v), pp.len());
        assert forall|j: int| 0 <= j < n implies #[trigger] pp.contains(sq[j]) by {
            assert(pp[o[j]] == sq[j]);
        }
        assert forall|a: int, b: int| 0 <= a < n && 0 <= b < n && a != b implies #[trigger] sq[a] != #[trigger] sq[b] by {
            assert(sq[a] == pp[o[a]] && sq[b] == pp[o[b]]);
            if a < b {
                assert(o[a] != o[b]);
            } else {
                assert(o[b] != o[a]);
            }
            assert(pp[o[a]].first != pp[o[b]].first);
        }
        assert forall|j: int| 0 <= j < n implies position_in(sq, #[trigger] sq[j]) == j by {
            let q = position_in(sq, sq[j]);
            assert(0 <= q < n && sq[q] == sq[j]);
        }
        assert forall|id: u64| #[trigger] v.objects.contains_key(id) implies 0 <= position_in(sq, v.objects[id].index_pointer) < n
            && sq[position_in(sq, v.objects[id].index_pointer)] == v.objects[id].index_pointer by {
            let q = v.objects[id].index_pointer;
            let i = choose|i: int| 0 <= i < pp.len() && pp[i] == q;
            assert(crate::buffer::occurs(o, i));
            let a = choose|a: int| 0 <= a < o.len() && o[a] == i;
            assert(sq[a] == q);
        }
        assert forall|j: int| 0 <= j < n implies self.ids_by_index_first@.contains_key(#[trigger] sq[j].first)
            && self.ids_by_index_first@[sq[j].first] == index_owner(v, sq[j])
            && v.objects.contains_key(index_owner(v, sq[j])) && v.objects[index_owner(v, sq[j])].index_pointer == sq[j] by {
            assert(pp.contains(sq[j]));
            self.lemma_index_owner(sq[j]);
        }
    }

    /// Sorts the index ranges by the draw order of their objects; see `spec_sort`.
    #[verifier::spinoff_prover]
    #[verifier::rlimit(100)]
    fn sort_indices(&mut self)
        requires
            old(self).wf(),
        ensures
            final(self).wf(),
            final(self)@ == spec_sort(old(self)@),
    {
        let ghost v = self@;
        let ghost by_index = self.ids_by_index_first@;
        let keys = self.collect_order_keys();
        let ghost sq = sorted_by_keys(v.index.pointers, order_keys(v));
        let ghost t = packed(sq);
        proof {
            self.lemma_sort_facts();
        }
        self.index_allocator.sort_by(&keys);
        let ghost n = sq.len();
        proof {
            crate::buffer::lemma_repacked_layout(self.index_allocator@, sq);
            crate::buffer::lemma_live_ranges_disjoint(self.index_allocator@);
            assert forall|a: int, b: int| 0 <= a < n && 0 <= b < n && a != b implies #[trigger] t[a].first != #[trigger] t[b].first by {
                if a < b {
                    assert(self.index_allocator@.pointers[a].first < self.index_allocator@.pointers[b].first);
                } else {
                    assert(self.index_allocator@.pointers[b].first < self.index_allocator@.pointers[a].first);
                }
            }
        }
        let event = self.index_allocator.pop_event();
        let pairs = match event {
            Some(BatchBufferAllocatorEvent::ReallocateAll { pairs }) => pairs,
            _ => {
                proof {
                    assert(false);
                }
                Vec::new()
            },
        };
        self.apply_index_moves(&pairs, Ghost(v), Ghost(by_index), Ghost(sq));
        self.should_sort_indices = false;
        proof {
            assert(self.index_allocator@.groups =~= Seq::<(usize, Seq<usize>)>::empty());
            assert(self.index_allocator@.events =~= write_events(t));
            Self::lemma_after_sort(self, old(self), sq);
        }
    }

    proof fn lemma_after_sort(m: &Self, old_m: &Self, sq: Seq<BatchBufferPointer>)
        requires
            old_m.wf(),
            sq == sorted_by_keys(old_m@.index.pointers, order_keys(old_m@)),
            m@.index.wf(),
            m@.index == spec_sort(old_m@).index,
            m@ == (ManagerView {
                objects: m@.objects,
                index_rewrites: m@.index_rewrites,
                index: m@.index,
                should_sort: false,
                ..old_m@
            }),
            m.ids_by_vertex_first@ == old_m.ids_by_vertex_first@,
            m.objects@ =~= spec_sort(old_m@).objects,
            m.index_rewrites@ =~= spec_sort(old_m@).index_rewrites,
            forall|j: int| 0 <= j < sq.len() ==> m.ids_by_index_first@.contains_key(#[trigger] packed(sq)[j].first)
                && m.ids_by_index_first@[packed(sq)[j].first] == index_owner(old_m@, sq[j]),
            forall|f: usize| #[trigger] m.ids_by_index_first@.contains_key(f) ==> exists|j: int| 0 <= j < sq.len() && packed(sq)[j].first == f,
        ensures
            m.wf(),
            m@ == spec_sort(old_m@),
    {
        let v = old_m@;
        let w = m@;
        old_m.lemma_sort_facts();
        let by_index = old_m.ids_by_index_first@;
        assert(w == spec_sort(v));
        assert(no_reallocation(w.index));
        assert forall|id: u64| #[trigger] w.objects.contains_key(id) implies w.index.pointers.contains(w.objects[id].index_pointer)
            && w.vertex.pointers.contains(w.objects[id].vertex_pointer) by {
            let j = position_in(sq, v.objects[id].index_pointer);
            assert(w.index.pointers[j] == w.objects[id].index_pointer);
        }
        assert forall|id: u64| #[trigger] w.objects.contains_key(id) implies
            m.ids_by_index_first@.contains_key(w.objects[id].index_pointer.first)
            && m.ids_by_index_first@[w.objects[id].index_pointer.first] == id by {
            let j = position_in(sq, v.objects[id].index_pointer);
            assert(by_index[v.objects[id].index_pointer.first] == id);
            assert(index_owner(v, sq[j]) == id);
        }
        assert forall|f: usize| #[trigger] m.ids_by_index_first@.contains_key(f) implies
            w.objects.contains_key(m.ids_by_index_first@[f]) && w.objects[m.ids_by_index_first@[f]].index_pointer.first == f by {
            let j = choose|j: int| 0 <= j < sq.len() && packed(sq)[j].first == f;
            let o = index_owner(v, sq[j]);
            assert(by_index.contains_key(sq[j].first));
            assert(v.objects[o].index_pointer == sq[j]);
            assert(m.ids_by_index_first@[packed(sq)[j].first] == o);
            assert(position_in(sq, v.objects[o].index_pointer) == j);
        }
        assert forall|i: int| 0 <= i < w.index.pointers.len() implies m.ids_by_index_first@.contains_key(
            #[trigger] w.index.pointers[i].first,
        ) by {
            assert(w.index.pointers[i] == packed(sq)[i]);
        }
    }

    /// Moves every object to its new index range after a sort.
    fn apply_index_moves(
        &mut self,
        pairs: &Vec<crate::buffer::BatchBufferAllocatorReallocPair>,
        Ghost(v): Ghost<ManagerView>,
        Ghost(by_index): Ghost<Map<usize, u64>>,
        Ghost(sq): Ghost<Seq<BatchBufferPointer>>,
    )
        requires
            old(self).ids_by_index_first@ == by_index,
            old(self).objects@ == v.objects,
            old(self).index_rewrites@ == v.index_rewrites,
            sq == sorted_by_keys(v.index.pointers, order_keys(v)),
            pairs@.len() == sq.len(),
            forall|j: int| 0 <= j < sq.len() ==> #[trigger] pairs@[j].from == sq[j] && pairs@[j].to == packed(sq)[j],
            forall|j: int| 0 <= j < sq.len() ==> position_in(sq, #[trigger] sq[j]) == j,
            forall|id: u64| #[trigger] v.objects.contains_key(id) ==> 0 <= position_in(sq, v.objects[id].index_pointer) < sq.len()
                && sq[position_in(sq, v.objects[id].index_pointer)] == v.objects[id].index_pointer,
            forall|j: int| 0 <= j < sq.len() ==> by_index.contains_key(#[trigger] sq[j].first) && by_index[sq[j].first] == index_owner(v, sq[j])
                && v.objects.contains_key(index_owner(v, sq[j])) && v.objects[index_owner(v, sq[j])].index_pointer == sq[j],
            forall|id: u64| #[trigger] v.objects.contains_key(id) ==> by_index[v.objects[id].index_pointer.first] == id,
            forall|a: int, b: int| 0 <= a < sq.len() && 0 <= b < sq.len() && a != b ==> #[trigger] packed(sq)[a].first != #[trigger] packed(sq)[b].first,
        ensures
            final(self)@ == (ManagerView { objects: final(self)@.objects, index_rewrites: final(self)@.index_rewrites, ..old(self)@ }),
            final(self).ids_by_vertex_first@ == old(self).ids_by_vertex_first@,
            final(self).objects@ =~= spec_sort(v).objects,
            final(self).index_rewrites@ =~= spec_sort(v).index_rewrites,
            forall|j: int| 0 <= j < sq.len() ==> final(self).ids_by_index_first@.contains_key(#[trigger] packed(sq)[j].first)
                && final(self).ids_by_index_first@[packed(sq)[j].first] == index_owner(v, sq[j]),
            forall|f: usize| #[trigger] final(self).ids_by_index_first@.contains_key(f) ==> exists|j: int| 0 <= j < sq.len() && packed(sq)[j].first == f,
    {
        let ghost t = packed(sq);
        let ghost n = sq.len();
        let ghost base = self@;
        let ghost by_vertex = self.ids_by_vertex_first@;
        assert(pairs@.len() == sq.len());
        assert(forall|j: int| 0 <= j < sq.len() ==> #[trigger] pairs@[j].from == sq[j]);
        assert(forall|j: int| 0 <= j < sq.len() ==> #[trigger] pairs@[j].from == sq[j] && pairs@[j].to == packed(sq)[j]);
        let mut new_map: HashMap<usize, u64> = HashMap::new();
        let mut k: usize = 0;
        while k < pairs.len()
            invariant
                pairs@.len() == n,
                n == sq.len(),
                t == packed(sq),
                forall|j: int| 0 <= j < n ==> #[trigger] pairs@[j].from == sq[j] && pairs@[j].to == packed(sq)[j],
                forall|j: int| 0 <= j < n ==> position_in(sq, #[trigger] sq[j]) == j,
                forall|id: u64| #[trigger] v.objects.contains_key(id) ==> 0 <= position_in(sq, v.objects[id].index_pointer) < n
                    && sq[position_in(sq, v.objects[id].index_pointer)] == v.objects[id].index_pointer,
                forall|j: int| 0 <= j < n ==> by_index.contains_key(#[trigger] sq[j].first) && by_index[sq[j].first] == index_owner(v, sq[j])
                    && v.objects.contains_key(index_owner(v, sq[j])) && v.objects[index_owner(v, sq[j])].index_pointer == sq[j],
                forall|id: u64| #[trigger] v.objects.contains_key(id) ==> by_index[v.objects[id].index_pointer.first] == id,
                forall|a: int, b: int| 0 <= a < n && 0 <= b < n && a != b ==> #[trigger] t[a].first != #[trigger] t[b].first,
                k <= n,
                self.ids_by_index_first@ == by_index,
                self.ids_by_vertex_first@ == by_vertex,
                self@ == (ManagerView { objects: self@.objects, index_rewrites: self@.index_rewrites, ..base }),
                self.objects@.dom() == v.objects.dom(),
                forall|id: u64| #[trigger] v.objects.contains_key(id) ==> self.objects@[id] == moved_record(v, sq, id, k as int),
                self.index_rewrites@ == v.index_rewrites.union(moved_ids(v, sq, k as int)),
                forall|j: int| 0 <= j < k ==> new_map@.contains_key(#[trigger] t[j].first) && new_map@[t[j].first] == index_owner(v, sq[j]),
                forall|f: usize| #[trigger] new_map@.contains_key(f) ==> exists|j: int| 0 <= j < k && t[j].first == f,
            decreases n - k,
        {
            let pair = pairs[k];
            let id = *self.ids_by_index_first.get(&pair.from.first).unwrap();
            let record = *self.objects.get(&id).unwrap();
            self.objects.insert(id, BatchObjectRecord { index_pointer: pair.to, ..record });
            new_map.insert(pair.to.first, id);
            self.index_rewrites.insert(id);
            proof {
                let kk = k as int;
                assert(id == index_owner(v, sq[kk]));
                assert(position_in(sq, v.objects[id].index_pointer) == kk);
                assert forall|i2: u64| #[trigger] v.objects.contains_key(i2) implies self.objects@[i2] == moved_record(v, sq, i2, kk + 1) by {
                    if i2 != id {
                        if position_in(sq, v.objects[i2].index_pointer) == kk {
                            assert(by_index[v.objects[i2].index_pointer.first] == i2);
                        }
                    }
                }
                assert(self.index_rewrites@ =~= v.index_rewrites.union(moved_ids(v, sq, kk + 1))) by {
                    assert forall|i2: u64| moved_ids(v, sq, kk + 1).contains(i2) implies moved_ids(v, sq, kk).contains(i2) || i2 == id by {
                        if position_in(sq, v.objects[i2].index_pointer) == kk {
                            assert(by_index[v.objects[i2].index_pointer.first] == i2);
                        }
                    }
                }
                assert forall|f: usize| #[trigger] new_map@.contains_key(f) implies exists|j: int| 0 <= j < kk + 1 && t[j].first == f by {
                    if f != t[kk].first {
                        assert(exists|j: int| 0 <= j < kk && t[j].first == f);
                    }
                }
            }
            k = k + 1;
        }
        self.ids_by_index_first = new_map;
        proof {
            assert forall|id: u64| v.objects.contains_key(id) implies moved_record(v, sq, id, n as int) == spec_sort(v).objects[id] by {}
            assert(moved_ids(v, sq, n as int) =~= v.objects.dom());
        }
    }
    /// Taking an event off an allocator's queue keeps the manager consistent.
    proof fn lemma_pop_keeps(m: &Self, old_m: &Self)
        requires
            old_m.wf(),
            m.ids_by_index_first@ == old_m.ids_by_index_first@,
            m.ids_by_vertex_first@ == old_m.ids_by_vertex_first@,
            (m@.index == old_m@.index && m@.vertex.wf() && m@.vertex.pointers == old_m@.vertex.pointers
                && m@.vertex.events == old_m@.vertex.events.drop_first() && old_m@.vertex.events.len() > 0)
            || (m@.vertex == old_m@.vertex && m@.index.wf() && m@.index.pointers == old_m@.index.pointers
                && m@.index.events == old_m@.index.events.drop_first() && old_m@.index.events.len() > 0),
            m@ == (ManagerView { index: m@.index, vertex: m@.vertex, ..old_m@ }),
        ensures
            m.wf(),
    {
        let v = m@;
        if m@.index == old_m@.index {
            assert forall|i: int| 0 <= i < v.vertex.events.len() implies !(#[trigger] v.vertex.events[i] is Reallocate) by {
                assert(v.vertex.events[i] == old_m@.vertex.events[i + 1]);
            }
        } else {
            assert forall|i: int| 0 <= i < v.index.events.len() implies !(#[trigger] v.index.events[i] is Reallocate) by {
                assert(v.index.events[i] == old_m@.index.events[i + 1]);
            }
        }
    }

    /// Turns the queued events of the index allocator into object events; see
    /// `drain_index`.
    fn drain_index_events(&mut self)
        requires
            old(self).wf(),
        ensures
            final(self).wf(),
            final(self)@ == drain_index(old(self)@),
    {
        let ghost v = self@;
        loop
            invariant_except_break
                drain_index(self@) == drain_index(v),
            invariant
                self.wf(),
            ensures
                self.wf(),
                self@ == drain_index(v),
            decreases self@.index.events.len(),
        {
            let ghost before = self@;
            let ghost before_m = *self;
            proof {
                if before.index.events.len() > 0 {
                    assert(!(before.index.events[0] is Reallocate));
                }
            }
            let event = self.index_allocator.pop_event();
            proof {
                if before.index.events.len() > 0 {
                    assert(self@.index.events =~= before.index.events.drop_first());
                    assert(self@ == (ManagerView { index: self@.index, vertex: self@.vertex, ..before }));
                    Self::lemma_pop_keeps(self, &before_m);
                }
            }
            match event {
                None => {
                    break;
                },
                Some(BatchBufferAllocatorEvent::Write(p)) => {
                    proof {
                        let first = before.index.events[0]->Write_first;
                        crate::buffer::lemma_pointer_index_from(before.index.pointers, first as int, 0);
                        assert(self@.index.pointers.contains(p));
                        self.lemma_index_owner(p);
                    }
                    let id = *self.ids_by_index_first.get(&p.first).unwrap();
                    self.events.push_back(BatchObjectEvent::WriteToIndexBuffer { id: BatchObjectId(id) });
                },
                Some(BatchBufferAllocatorEvent::Clear(p)) => {
                    self.events.push_back(BatchObjectEvent::ClearToIndexBuffer { pointer: p });
                },
                Some(BatchBufferAllocatorEvent::ReallocateAll { pairs }) => {
                    proof {
                        assert(false);
                    }
                },
            }
        }
    }

    /// Turns the queued events of the vertex allocator into object events; see
    /// `drain_vertex`.
    fn drain_vertex_events(&mut self)
        requires
            old(self).wf(),
        ensures
            final(self).wf(),
            final(self)@ == drain_vertex(old(self)@),
    {
        let ghost v = self@;
        loop
            invariant_except_break
                drain_vertex(self@) == drain_vertex(v),
            invariant
                self.wf(),
            ensures
                self.wf(),
                self@ == drain_vertex(v),
            decreases self@.vertex.events.len(),
        {
            let ghost before = self@;
            let ghost before_m = *self;
            proof {
                if before.vertex.events.len() > 0 {
                    assert(!(before.vertex.events[0] is Reallocate));
                }
            }
            let event = self.vertex_allocator.pop_event();
            proof {
                if before.vertex.events.len() > 0 {
                    assert(self@.vertex.events =~= before.vertex.events.drop_first());
                    assert(self@ == (ManagerView { index: self@.index, vertex: self@.vertex, ..before }));
                    Self::lemma_pop_keeps(self, &before_m);
                }
            }
            match event {
                None => {
                    break;
                },
                Some(BatchBufferAllocatorEvent::Write(p)) => {
                    proof {
                        let first = before.vertex.events[0]->Write_first;
                        crate::buffer::lemma_pointer_index_from(before.vertex.pointers, first as int, 0);
                        assert(self@.vertex.pointers.contains(p));
                        self.lemma_vertex_owner(p);
                    }
                    let id = *self.ids_by_vertex_first.get(&p.first).unwrap();
                    let record = *self.objects.get(&id).unwrap();
                    let ghost start = self.events@;
                    let mut events = VecDeque::new();
                    std::mem::swap(&mut events, &mut self.events);
                    let mut a: u32 = 0;
                    while a < record.attributes
                        invariant
                            a <= record.attributes,
                            events@ == start + vertex_writes(id, a),
                        decreases record.attributes - a,
                    {
                        events.push_back(BatchObjectEvent::WriteToVertexBuffer { id: BatchObjectId(id), attribute: a });
                        a = a + 1;
                        assert(events@ =~= start + vertex_writes(id, a));
                    }
                    std::mem::swap(&mut events, &mut self.events);
                },
                Some(BatchBufferAllocatorEvent::Clear(p)) => {
                    self.events.push_back(BatchObjectEvent::ClearToVertexBuffer { pointer: p });
                },
                Some(BatchBufferAllocatorEvent::ReallocateAll { pairs }) => {
                    proof {
                        assert(false);
                    }
                },
            }
        }
    }

    /// Takes the oldest event; see `spec_pop`.
    pub fn pop_event(&mut self) -> (r: Option<BatchObjectEvent>)
        requires
            old(self).wf(),
        ensures
            final(self).wf(),
            (final(self)@, r) == spec_pop(old(self)@),
    {
        if self.should_sort_indices {
            self.sort_indices();
        }
        self.drain_index_events();
        self.drain_vertex_events();
        let ghost v2 = self@;
        let event = match self.events.pop_front() {
            None => {
                return None;
            },
            Some(event) => event,
        };
        match &event {
            BatchObjectEvent::WriteToIndexBuffer { id } => {
                self.index_rewrites.remove(&id.0);
            },
            BatchObjectEvent::WriteToVertexBuffer { id, attribute } => {
                self.vertex_rewrites.remove(&(id.0, *attribute));
            },
            _ => {},
        }
        proof {
            assert(self@.events =~= v2.events.drop_first());
            assert(self@.index == v2.index);
            assert(self@.vertex == v2.vertex);
            assert(self@.objects == v2.objects);
            assert(self@.next_id == v2.next_id);
            assert(self@.index_rewrites.subset_of(v2.index_rewrites));
            assert(self@.vertex_rewrites.subset_of(v2.vertex_rewrites));
            assert(self@.wf());
        }
        Some(event)
    }

    /// Two objects never share a slot of the index buffer or of the vertex buffer.
    pub proof fn lemma_objects_disjoint(&self, a: u64, b: u64)
        requires
            self.wf(),
            self@.objects.contains_key(a),
            self@.objects.contains_key(b),
            a != b,
        ensures
            crate::buffer::disjoint(self@.objects[a].index_pointer, self@.objects[b].index_pointer),
            crate::buffer::disjoint(self@.objects[a].vertex_pointer, self@.objects[b].vertex_pointer),
    {
        let v = self@;
        crate::buffer::lemma_live_ranges_disjoint(v.index);
        crate::buffer::lemma_live_ranges_disjoint(v.vertex);
        let ia = choose|i: int| 0 <= i < v.index.pointers.len() && v.index.pointers[i] == v.objects[a].index_pointer;
        let ib = choose|i: int| 0 <= i < v.index.pointers.len() && v.index.pointers[i] == v.objects[b].index_pointer;
        let va = choose|i: int| 0 <= i < v.vertex.pointers.len() && v.vertex.pointers[i] == v.objects[a].vertex_pointer;
        let vb = choose|i: int| 0 <= i < v.vertex.pointers.len() && v.vertex.pointers[i] == v.objects[b].vertex_pointer;
        assert(ia != ib);
        assert(va != vb);
        assert(crate::buffer::disjoint(v.index.pointers[ia], v.index.pointers[ib]));
        assert(crate::buffer::disjoint(v.vertex.pointers[va], v.vertex.pointers[vb]));
    }

    /// Sorting the index ranges puts them in draw order: an object with a smaller
    /// draw order gets an index range that starts before that of an object with a
    /// larger one, and objects of one draw order keep the order of their ranges.
    pub proof fn lemma_sort_follows_draw_order(&self, a: u64, b: u64)
        requires
            self.wf(),
            self@.objects.contains_key(a),
            self@.objects.contains_key(b),
            a != b,
        ensures
            ({
                let v = self@;
                let w = spec_sort(v);
                &&& v.objects[a].order < v.objects[b].order ==> w.objects[a].index_pointer.first
                    < w.objects[b].index_pointer.first
                &&& v.objects[a].order == v.objects[b].order && v.objects[a].index_pointer.first
                    < v.objects[b].index_pointer.first ==> w.objects[a].index_pointer.first
                    < w.objects[b].index_pointer.first
            }),
    {
        let v = self@;
        let s = v.index.pointers;
        let n = s.len() as int;
        let keys = order_keys(v);
        let pa = v.objects[a].index_pointer;
        let pb = v.objects[b].index_pointer;
        crate::buffer::lemma_live_ranges_disjoint(v.index);
        self.lemma_index_owner(pa);
        self.lemma_index_owner(pb);
        assert(index_owner(v, pa) == a);
        assert(index_owner(v, pb) == b);
        let ia = choose|i: int| 0 <= i < n && s[i] == pa;
        let ib = choose|i: int| 0 <= i < n && s[i] == pb;
        assert(keys[ia] == v.objects[a].order as i64);
        assert(keys[ib] == v.objects[b].order as i64);
        self.lemma_objects_disjoint(a, b);
        assert(ia != ib);
        crate::buffer::lemma_sorted_by_keys(s, keys);
        let o = crate::buffer::stable_order(keys, s.len());
        let t = sorted_by_keys(s, keys);
        assert(crate::buffer::occurs(o, ia));
        assert(crate::buffer::occurs(o, ib));
        let ja = choose|j: int| 0 <= j < o.len() && o[j] == ia;
        let jb = choose|j: int| 0 <= j < o.len() && o[j] == ib;
        assert(t[ja] == pa && t[jb] == pb);
        assert forall|k: int| 0 <= k < n && #[trigger] t[k] == pa implies k == ja by {
            assert(s[o[k]] == s[ia]);
            if o[k] != ia {
                assert(s[o[k]].first != s[ia].first);
            }
            if k != ja {
                assert(o[k] != o[ja]);
            }
        }
        assert forall|k: int| 0 <= k < n && #[trigger] t[k] == pb implies k == jb by {
            assert(s[o[k]] == s[ib]);
            if o[k] != ib {
                assert(s[o[k]].first != s[ib].first);
            }
            if k != jb {
                assert(o[k] != o[jb]);
            }
        }
        assert(position_in(t, pa) == ja);
        assert(position_in(t, pb) == jb);
        crate::buffer::lemma_sorted_by_keys_sum(s, keys, n as nat);
        crate::buffer::lemma_sum_le_end(s, n);
        assert(s.take(n) =~= s);
        assert forall|i: int| 0 <= i < t.len() implies #[trigger] t[i].len > 0 by {
            assert(t[i] == s[o[i]]);
        }
        crate::buffer::lemma_packed_wf(t, Seq::empty());
        let u = packed(t);
        assert(spec_sort(v).objects[a].index_pointer == u[ja]);
        assert(spec_sort(v).objects[b].index_pointer == u[jb]);
        if ja < jb {
            assert(crate::buffer::end(u[ja]) <= u[jb].first);
        } else {
            assert(crate::buffer::stably_sorted(keys, o));
            assert(keys[o[jb]] < keys[o[ja]] || (keys[o[jb]] == keys[o[ja]] && o[jb] < o[ja]));
            if ib < ia {
                assert(s[ib].first < s[ia].first);
            }
        }
    }

    /// With no object left, nothing is in use in either buffer and nothing is marked.
    pub proof fn lemma_empty_without_objects(&self)
        requires
            self.wf(),
            self@.objects.dom().len() == 0,
            self@.objects.dom().finite(),
        ensures
            self@.index.pointers.len() == 0,
            self@.vertex.pointers.len() == 0,
            self@.index.len == 0,
            self@.vertex.len == 0,
            self@.index_rewrites.len() == 0,
            self@.vertex_rewrites.len() == 0,
    {
        let v = self@;
        assert(v.objects.dom() =~= Set::<u64>::empty()) by {
            if exists|id: u64| v.objects.dom().contains(id) {
                let id = choose|id: u64| v.objects.dom().contains(id);
                vstd::set_lib::lemma_set_empty_equivalency_len(v.objects.dom());
            }
        }
        if v.index.pointers.len() > 0 {
            assert(self.ids_by_index_first@.contains_key(v.index.pointers[0].first));
        }
        if v.vertex.pointers.len() > 0 {
            assert(self.ids_by_vertex_first@.contains_key(v.vertex.pointers[0].first));
        }
        assert(v.index_rewrites =~= Set::<u64>::empty());
        assert(v.vertex_rewrites =~= Set::<(u64, u32)>::empty());
    }

    /// A manager with no object, for buffers of the given lengths.
    pub fn new(index_len: usize, vertex_len: usize) -> (r: Self)
        ensures
            r.wf(),
            r@.next_id == 0,
            r@.objects == Map::<u64, BatchObjectRecord>::empty(),
            r@.index_rewrites == Set::<u64>::empty(),
            r@.vertex_rewrites == Set::<(u64, u32)>::empty(),
            r@.index.pointers.len() == 0 && r@.index.groups.len() == 0 && r@.index.events.len() == 0 && r@.index.len == 0,
            r@.vertex.pointers.len() == 0 && r@.vertex.groups.len() == 0 && r@.vertex.events.len() == 0 && r@.vertex.len == 0,
            r@.events.len() == 0,
            r@.index_len == index_len,
            r@.vertex_len == vertex_len,
            !r@.should_sort,
    {
        BatchObjectManager {
            next_id: BatchObjectId(0),
            objects: HashMap::new(),
            ids_by_index_first: HashMap::new(),
            ids_by_vertex_first: HashMap::new(),
            index_rewrites: BTreeSet::new(),
            vertex_rewrites: BTreeSet::new(),
            index_allocator: BatchBufferAllocator::new(),
            vertex_allocator: BatchBufferAllocator::new(),
            events: VecDeque::new(),
            index_len,
            vertex_len,
            should_sort_indices: false,
        }
    }

    /// Adds an object of `index_len` indices and `attributes` vertex attributes of
    /// `vertex_len` vertices each, drawn in `order` (last when there is none); see
    /// `spec_add`.
    #[verifier::spinoff_prover]
    #[verifier::rlimit(40)]
    pub fn add(&mut self, index_len: usize, vertex_len: usize, attributes: u32, order: Option<i32>) -> (r: BatchObjectId)
        requires
            old(self).wf(),
            can_add(old(self)@, index_len, vertex_len),
        ensures
            final(self).wf(),
            (final(self)@, r) == spec_add(old(self)@, index_len, vertex_len, attributes, order),
    {
        let ghost v = self@;
        let ghost old_order = order;
        let ghost old_by_index = self.ids_by_index_first@;
        let ghost old_by_vertex = self.ids_by_vertex_first@;
        proof {
            crate::buffer::lemma_allocate_fresh(v.index, index_len);
            crate::buffer::lemma_allocate_fresh(v.vertex, vertex_len);
        }
        if order.is_some() {
            self.should_sort_indices = true;
        }
        let id = self.next_id;
        self.next_id = id.next();
        let order = match order {
            Some(o) => o,
            None => DEFAULT_ORDER,
        };
        let index_pointer = self.index_allocator.allocate(index_len);
        if self.index_allocator.len() > self.index_len {
            self.index_len = self.index_allocator.len() * 2;
            self.events.push_back(BatchObjectEvent::ResizeIndexBuffer { len: self.index_len });
        }
        let vertex_pointer = self.vertex_allocator.allocate(vertex_len);
        if self.vertex_allocator.len() > self.vertex_len {
            self.vertex_len = self.vertex_allocator.len() * 2;
            self.events.push_back(BatchObjectEvent::ResizeVertexBuffer { len: self.vertex_len });
        }
        let record = BatchObjectRecord { index_pointer, vertex_pointer, attributes, order };
        self.index_rewrites.insert(id.0);
        let mut keys = BTreeSet::new();
        std::mem::swap(&mut keys, &mut self.vertex_rewrites);
        let mut a: u32 = 0;
        while a < attributes
            invariant
                a <= attributes,
                keys@ == v.vertex_rewrites.union(attribute_keys(id.0, a)),
            decreases attributes - a,
        {
            keys.insert((id.0, a));
            a = a + 1;
            assert(keys@ =~= v.vertex_rewrites.union(attribute_keys(id.0, a)));
        }
        std::mem::swap(&mut keys, &mut self.vertex_rewrites);
        self.events.push_back(BatchObjectEvent::Add { id });
        self.objects.insert(id.0, record);
        self.ids_by_index_first.insert(index_pointer.first, id.0);
        self.ids_by_vertex_first.insert(vertex_pointer.first, id.0);
        proof {
            let w = self@;
            let ia = spec_allocate(v.index, index_len).0;
            let va = spec_allocate(v.vertex, vertex_len).0;
            assert(w.objects =~= spec_add(v, index_len, vertex_len, attributes, old_order).0.objects);
            assert(w.index_rewrites =~= v.index_rewrites.insert(id.0));
            assert(w.events =~= spec_add(v, index_len, vertex_len, attributes, old_order).0.events);
            assert forall|i: u64| #[trigger] w.objects.contains_key(i) implies w.index.pointers.contains(w.objects[i].index_pointer)
                && w.vertex.pointers.contains(w.objects[i].vertex_pointer) by {
                if i != id.0 {
                    assert(v.index.pointers.to_set().contains(v.objects[i].index_pointer));
                    assert(w.index.pointers.to_set().contains(v.objects[i].index_pointer));
                    assert(v.vertex.pointers.to_set().contains(v.objects[i].vertex_pointer));
                    assert(w.vertex.pointers.to_set().contains(v.objects[i].vertex_pointer));
                } else {
                    assert(w.index.pointers.to_set().contains(index_pointer));
                    assert(w.vertex.pointers.to_set().contains(vertex_pointer));
                }
            }
            assert forall|f: usize| #[trigger] old_by_index.contains_key(f) implies f != index_pointer.first by {
                lemma_fresh_first(v.index, index_pointer, v.objects[old_by_index[f]].index_pointer);
            }
            assert forall|f: usize| #[trigger] old_by_vertex.contains_key(f) implies f != vertex_pointer.first by {
                lemma_fresh_first(v.vertex, vertex_pointer, v.objects[old_by_vertex[f]].vertex_pointer);
            }
            assert forall|i: int| 0 <= i < w.index.pointers.len() implies self.ids_by_index_first@.contains_key(
                #[trigger] w.index.pointers[i].first,
            ) by {
                let q = w.index.pointers[i];
                assert(w.index.pointers.to_set().contains(q));
                if q != index_pointer {
                    assert(v.index.pointers.to_set().contains(q));
                    let j = choose|j: int| 0 <= j < v.index.pointers.len() && v.index.pointers[j] == q;
                    assert(old_by_index.contains_key(v.index.pointers[j].first));
                }
            }
            assert forall|i: int| 0 <= i < w.vertex.pointers.len() implies self.ids_by_vertex_first@.contains_key(
                #[trigger] w.vertex.pointers[i].first,
            ) by {
                let q = w.vertex.pointers[i];
                assert(w.vertex.pointers.to_set().contains(q));
                if q != vertex_pointer {
                    assert(v.vertex.pointers.to_set().contains(q));
                    let j = choose|j: int| 0 <= j < v.vertex.pointers.len() && v.vertex.pointers[j] == q;
                    assert(old_by_vertex.contains_key(v.vertex.pointers[j].first));
                }
            }
            assert(no_reallocation(w.index)) by {
                assert forall|i: int| 0 <= i < w.index.events.len() implies !(#[trigger] w.index.events[i] is Reallocate) by {
                    if i < v.index.events.len() {
                        assert(w.index.events[i] == v.index.events[i]);
                    }
                }
            }
            assert(no_reallocation(w.vertex)) by {
                assert forall|i: int| 0 <= i < w.vertex.events.len() implies !(#[trigger] w.vertex.events[i] is Reallocate) by {
                    if i < v.vertex.events.len() {
                        assert(w.vertex.events[i] == v.vertex.events[i]);
                    }
                }
            }
        }
        id
    }

    /// Removes object `id` and gives its record back; see `spec_remove`.
    #[verifier::spinoff_prover]
    #[verifier::rlimit(40)]
    pub fn remove(&mut self, id: BatchObjectId) -> (r: Option<BatchObjectRecord>)
        requires
            old(self).wf(),
        ensures
            final(self).wf(),
            (final(self)@, r) == spec_remove(old(self)@, id.0),
    {
        let ghost v = self@;
        let ghost old_by_index = self.ids_by_index_first@;
        let ghost old_by_vertex = self.ids_by_vertex_first@;
        let object = match self.objects.remove(&id.0) {
            None => {
                assert(self.objects@ =~= v.objects);
                return None;
            },
            Some(object) => object,
        };
        proof {
            assert(v.objects.contains_key(id.0) && object == v.objects[id.0]);
            assert(v.index.pointers.contains(object.index_pointer));
            assert(v.vertex.pointers.contains(object.vertex_pointer));
            crate::buffer::lemma_free_releases(v.index, object.index_pointer);
            crate::buffer::lemma_free_releases(v.vertex, object.vertex_pointer);
            crate::buffer::lemma_live_ranges_disjoint(v.index);
            crate::buffer::lemma_live_ranges_disjoint(v.vertex);
        }
        self.events.push_back(BatchObjectEvent::Remove { id });
        self.index_allocator.free(object.index_pointer);
        self.vertex_allocator.free(object.vertex_pointer);
        self.ids_by_index_first.remove(&object.index_pointer.first);
        self.ids_by_vertex_first.remove(&object.vertex_pointer.first);
        self.index_rewrites.remove(&id.0);
        let mut keys = BTreeSet::new();
        std::mem::swap(&mut keys, &mut self.vertex_rewrites);
        let mut a: u32 = 0;
        while a < object.attributes
            invariant
                a <= object.attributes,
                keys@ == v.vertex_rewrites.difference(attribute_keys(id.0, a)),
            decreases object.attributes - a,
        {
            keys.remove(&(id.0, a));
            a = a + 1;
            assert(keys@ =~= v.vertex_rewrites.difference(attribute_keys(id.0, a)));
        }
        std::mem::swap(&mut keys, &mut self.vertex_rewrites);
        proof {
            let w = self@;
            assert(w.index_rewrites =~= v.index_rewrites.remove(id.0));
            assert(w.objects =~= v.objects.remove(id.0));
            assert(w.events =~= v.events.push(BatchObjectEvent::Remove { id }));
            let ip = object.index_pointer;
            let vp = object.vertex_pointer;
            assert forall|i: u64| #[trigger] w.objects.contains_key(i) implies w.index.pointers.contains(w.objects[i].index_pointer)
                && w.vertex.pointers.contains(w.objects[i].vertex_pointer) by {
                let o = v.objects[i];
                assert(old_by_index[o.index_pointer.first] == i);
                assert(old_by_vertex[o.vertex_pointer.first] == i);
                assert(o.index_pointer != ip);
                assert(o.vertex_pointer != vp);
                assert(v.index.pointers.to_set().contains(o.index_pointer));
                assert(w.index.pointers.to_set().contains(o.index_pointer));
                assert(v.vertex.pointers.to_set().contains(o.vertex_pointer));
                assert(w.vertex.pointers.to_set().contains(o.vertex_pointer));
            }
            assert forall|i: int| 0 <= i < w.index.pointers.len() implies self.ids_by_index_first@.contains_key(
                #[trigger] w.index.pointers[i].first,
            ) by {
                let q = w.index.pointers[i];
                assert(w.index.pointers.to_set().contains(q));
                assert(v.index.pointers.to_set().contains(q));
                let j = choose|j: int| 0 <= j < v.index.pointers.len() && v.index.pointers[j] == q;
                let k = choose|k: int| 0 <= k < v.index.pointers.len() && v.index.pointers[k] == ip;
                assert(old_by_index.contains_key(v.index.pointers[j].first));
                if q.first == ip.first {
                    assert(j == k);
                }
            }
            assert forall|i: int| 0 <= i < w.vertex.pointers.len() implies self.ids_by_vertex_first@.contains_key(
                #[trigger] w.vertex.pointers[i].first,
            ) by {
                let q = w.vertex.pointers[i];
                assert(w.vertex.pointers.to_set().contains(q));
                assert(v.vertex.pointers.to_set().contains(q));
                let j = choose|j: int| 0 <= j < v.vertex.pointers.len() && v.vertex.pointers[j] == q;
                let k = choose|k: int| 0 <= k < v.vertex.pointers.len() && v.vertex.pointers[k] == vp;
                assert(old_by_vertex.contains_key(v.vertex.pointers[j].first));
                if q.first == vp.first {
                    assert(j == k);
                }
            }
            assert(no_reallocation(w.index)) by {
                assert forall|i: int| 0 <= i < w.index.events.len() implies !(#[trigger] w.index.events[i] is Reallocate) by {
                    if i < v.index.events.len() {
                        assert(w.index.events[i] == v.index.events[i]);
                    }
                }
            }
            assert(no_reallocation(w.vertex)) by {
                assert forall|i: int| 0 <= i < w.vertex.events.len() implies !(#[trigger] w.vertex.events[i] is Reallocate) by {
                    if i < v.vertex.events.len() {
                        assert(w.vertex.events[i] == v.vertex.events[i]);
                    }
                }
            }
            assert(w.wf());
            assert(w == spec_remove(v, id.0).0);
        }
        assert(self.wf());
        Some(object)
    }

    /// Marks attribute `attribute` of object `id`, unless it is marked already, and
    /// queues a write of it then.
    fn mark(&mut self, id: BatchObjectId, attribute: BatchAttributeIndex)
        requires
            old(self).wf(),
            old(self)@.objects.contains_key(id.0),
            attribute < old(self)@.objects[id.0].attributes,
        ensures
            final(self).wf(),
            final(self)@ == spec_mark(old(self)@, id.0, attribute),
    {
        let ghost v = self@;
        if !self.vertex_rewrites.contains(&(id.0, attribute)) {
            self.events.push_back(BatchObjectEvent::WriteToVertexBuffer { id, attribute });
            self.vertex_rewrites.insert((id.0, attribute));
            assert(self@.vertex_rewrites == v.vertex_rewrites.insert((id.0, attribute)));
            assert(forall|k: (u64, u32)| #[trigger] self@.vertex_rewrites.contains(k) ==> self@.objects.contains_key(k.0)
                && k.1 < self@.objects[k.0].attributes);
            assert(self@.index == v.index);
            assert(self@.objects == v.objects);
            assert(self@.next_id == v.next_id);
            assert(self@.index_rewrites == v.index_rewrites);
            assert(self@.wf());
        }
    }

    /// Bookkeeping of a new transform of attribute `attribute` of object `id` (an
    /// attribute that the object has): the attribute is to be written again.
    pub fn transform(&mut self, id: BatchObjectId, attribute: BatchAttributeIndex)
        requires
            old(self).wf(),
            old(self)@.objects.contains_key(id.0) ==> attribute < old(self)@.objects[id.0].attributes,
        ensures
            final(self).wf(),
            final(self)@ == if old(self)@.objects.contains_key(id.0) {
                spec_mark(old(self)@, id.0, attribute)
            } else {
                old(self)@
            },
    {
        if !self.objects.contains_key(&id.0) {
            return;
        }
        self.mark(id, attribute);
    }

    /// Bookkeeping of new data for attribute `attribute` of object `id`, of `len`
    /// vertices, as many as before: the attribute is to be written again. An object
    /// or attribute that does not exist is left alone.
    pub fn rewrite_vertices(&mut self, id: BatchObjectId, attribute: BatchAttributeIndex, len: usize)
        requires
            old(self).wf(),
            old(self)@.objects.contains_key(id.0) && attribute < old(self)@.objects[id.0].attributes
                ==> len == old(self)@.objects[id.0].vertex_pointer.len,
        ensures
            final(self).wf(),
            final(self)@ == if old(self)@.objects.contains_key(id.0) && attribute < old(self)@.objects[id.0].attributes {
                spec_mark(old(self)@, id.0, attribute)
            } else {
                old(self)@
            },
    {
        let object = match self.objects.get(&id.0) {
            Some(object) => *object,
            None => {
                return;
            },
        };
        if attribute >= object.attributes {
            return;
        }
        self.mark(id, attribute);
    }

    /// Bookkeeping of new indices for object `id`, `len` of them: with as many as
    /// before nothing moves; else the object gets a new index range, of a positive
    /// length (see `can_add`), and is marked.
    #[verifier::spinoff_prover]
    #[verifier::rlimit(40)]
    pub fn replace_indices(&mut self, id: BatchObjectId, len: usize)
        requires
            old(self).wf(),
            old(self)@.objects.contains_key(id.0) && len != old(self)@.objects[id.0].index_pointer.len ==> {
                let f = spec_free(old(self)@.index, old(self)@.objects[id.0].index_pointer);
                &&& len > 0
                &&& allocates_in_place(f, len as int) || f.len + len <= usize::MAX
            },
        ensures
            final(self).wf(),
            final(self)@ == if old(self)@.objects.contains_key(id.0) && len != old(self)@.objects[id.0].index_pointer.len {
                spec_move_indices(old(self)@, id.0, len)
            } else {
                old(self)@
            },
    {
        let ghost v = self@;
        let ghost old_by_index = self.ids_by_index_first@;
        let object = match self.objects.get(&id.0) {
            Some(object) => *object,
            None => {
                return;
            },
        };
        if object.index_pointer.len == len {
            return;
        }
        let old_pointer = object.index_pointer;
        proof {
            crate::buffer::lemma_free_releases(v.index, old_pointer);
            crate::buffer::lemma_live_ranges_disjoint(v.index);
            crate::buffer::lemma_allocate_fresh(spec_free(v.index, old_pointer), len);
        }
        self.ids_by_index_first.remove(&old_pointer.first);
        let new_pointer = self.index_allocator.reallocate(old_pointer, len);
        self.objects.insert(id.0, BatchObjectRecord { index_pointer: new_pointer, ..object });
        self.ids_by_index_first.insert(new_pointer.first, id.0);
        self.index_rewrites.insert(id.0);
        proof {
            let w = self@;
            let f = spec_free(v.index, old_pointer);
            assert(w.index == spec_allocate(f, len).0);
            assert(w.objects =~= spec_move_indices(v, id.0, len).objects);
            assert(w.index_rewrites =~= v.index_rewrites.insert(id.0));
            assert forall|i: u64| #[trigger] w.objects.contains_key(i) implies w.index.pointers.contains(w.objects[i].index_pointer)
                && w.vertex.pointers.contains(w.objects[i].vertex_pointer) by {
                if i != id.0 {
                    let o = v.objects[i];
                    assert(old_by_index[o.index_pointer.first] == i);
                    assert(o.index_pointer != old_pointer);
                    assert(v.index.pointers.to_set().contains(o.index_pointer));
                    assert(f.pointers.to_set().contains(o.index_pointer));
                    assert(w.index.pointers.to_set().contains(o.index_pointer));
                } else {
                    assert(w.index.pointers.to_set().contains(new_pointer));
                }
            }
            assert forall|g: usize| #[trigger] old_by_index.contains_key(g) && g != old_pointer.first implies g != new_pointer.first by {
                let o = v.objects[old_by_index[g]];
                assert(o.index_pointer != old_pointer);
                assert(v.index.pointers.to_set().contains(o.index_pointer));
                assert(f.pointers.to_set().contains(o.index_pointer));
                lemma_fresh_first(f, new_pointer, o.index_pointer);
            }
            assert forall|i: int| 0 <= i < w.index.pointers.len() implies self.ids_by_index_first@.contains_key(
                #[trigger] w.index.pointers[i].first,
            ) by {
                let q = w.index.pointers[i];
                assert(w.index.pointers.to_set().contains(q));
                if q != new_pointer {
                    assert(f.pointers.to_set().contains(q));
                    assert(v.index.pointers.to_set().contains(q));
                    let j = choose|j: int| 0 <= j < v.index.pointers.len() && v.index.pointers[j] == q;
                    let k = choose|k: int| 0 <= k < v.index.pointers.len() && v.index.pointers[k] == old_pointer;
                    assert(old_by_index.contains_key(v.index.pointers[j].first));
                    if q.first == old_pointer.first {
                        assert(j == k);
                    }
                }
            }
            assert(no_reallocation(w.index)) by {
                assert forall|i: int| 0 <= i < w.index.events.len() implies !(#[trigger] w.index.events[i] is Reallocate) by {
                    if i < v.index.events.len() {
                        assert(w.index.events[i] == v.index.events[i]);
                    }
                }
            }
            assert(w.wf());
        }
        assert(self.wf());
    }

    /// Bookkeeping of new vertex data for object `id`: `attributes` arrays of
    /// `vertex_len` vertices each, at most as many arrays as the object has
    /// attributes. With as many vertices as before, the attributes given are marked
    /// one by one, in order; else the object gets a new vertex range, of a positive
    /// length (see `can_add`), and all its attributes are marked.
    #[verifier::spinoff_prover]
    #[verifier::rlimit(40)]
    pub fn replace_vertices(&mut self, id: BatchObjectId, vertex_len: usize, attributes: u32)
        requires
            old(self).wf(),
            old(self)@.objects.contains_key(id.0) && !(old(self)@.objects[id.0].attributes > 0
                && old(self)@.objects[id.0].vertex_pointer.len == vertex_len) ==> {
                let f = spec_free(old(self)@.vertex, old(self)@.objects[id.0].vertex_pointer);
                &&& attributes <= old(self)@.objects[id.0].attributes
                &&& vertex_len > 0
                &&& allocates_in_place(f, vertex_len as int) || f.len + vertex_len <= usize::MAX
            },
        ensures
            final(self).wf(),
            final(self)@ == if !old(self)@.objects.contains_key(id.0) {
                old(self)@
            } else if old(self)@.objects[id.0].attributes > 0 && old(self)@.objects[id.0].vertex_pointer.len == vertex_len {
                spec_mark_upto(
                    old(self)@,
                    id.0,
                    if attributes <= old(self)@.objects[id.0].attributes {
                        attributes as nat
                    } else {
                        old(self)@.objects[id.0].attributes as nat
                    },
                )
            } else {
                spec_move_vertices(old(self)@, id.0, vertex_len)
            },
    {
        let ghost v = self@;
        let ghost old_by_vertex = self.ids_by_vertex_first@;
        let object = match self.objects.get(&id.0) {
            Some(object) => *object,
            None => {
                return;
            },
        };
        if object.attributes > 0 && object.vertex_pointer.len == vertex_len {
            let mut a: u32 = 0;
            while a < attributes
                invariant
                    a <= attributes,
                    object.vertex_pointer.len == vertex_len,
                    v.objects.contains_key(id.0) && v.objects[id.0] == object,
                    self.wf(),
                    self@ == spec_mark_upto(v, id.0, if a <= object.attributes { a as nat } else { object.attributes as nat }),
                decreases attributes - a,
            {
                proof {
                    lemma_mark_upto_keeps(v, id.0, if a <= object.attributes { a as nat } else { object.attributes as nat });
                }
                self.rewrite_vertices(id, a, vertex_len);
                a = a + 1;
            }
            return;
        }
        let old_pointer = object.vertex_pointer;
        proof {
            crate::buffer::lemma_free_releases(v.vertex, old_pointer);
            crate::buffer::lemma_live_ranges_disjoint(v.vertex);
            crate::buffer::lemma_allocate_fresh(spec_free(v.vertex, old_pointer), vertex_len);
        }
        self.ids_by_vertex_first.remove(&old_pointer.first);
        let new_pointer = self.vertex_allocator.reallocate(old_pointer, vertex_len);
        self.objects.insert(id.0, BatchObjectRecord { vertex_pointer: new_pointer, ..object });
        self.ids_by_vertex_first.insert(new_pointer.first, id.0);
        let mut keys = BTreeSet::new();
        std::mem::swap(&mut keys, &mut self.vertex_rewrites);
        let mut a: u32 = 0;
        while a < object.attributes
            invariant
                a <= object.attributes,
                keys@ == v.vertex_rewrites.union(attribute_keys(id.0, a)),
            decreases object.attributes - a,
        {
            keys.insert((id.0, a));
            a = a + 1;
            assert(keys@ =~= v.vertex_rewrites.union(attribute_keys(id.0, a)));
        }
        std::mem::swap(&mut keys, &mut self.vertex_rewrites);
        proof {
            let w = self@;
            let f = spec_free(v.vertex, old_pointer);
            assert(w.vertex == spec_allocate(f, vertex_len).0);
            assert(w.objects =~= spec_move_vertices(v, id.0, vertex_len).objects);
            assert forall|i: u64| #[trigger] w.objects.contains_key(i) implies w.index.pointers.contains(w.objects[i].index_pointer)
                && w.vertex.pointers.contains(w.objects[i].vertex_pointer) by {
                if i != id.0 {
                    let o = v.objects[i];
                    assert(old_by_vertex[o.vertex_pointer.first] == i);
                    assert(o.vertex_pointer != old_pointer);
                    assert(v.vertex.pointers.to_set().contains(o.vertex_pointer));
                    assert(f.pointers.to_set().contains(o.vertex_pointer));
                    assert(w.vertex.pointers.to_set().contains(o.vertex_pointer));
                } else {
                    assert(w.vertex.pointers.to_set().contains(new_pointer));
                }
            }
            assert forall|g: usize| #[trigger] old_by_vertex.contains_key(g) && g != old_pointer.first implies g != new_pointer.first by {
                let o = v.objects[old_by_vertex[g]];
                assert(o.vertex_pointer != old_pointer);
                assert(v.vertex.pointers.to_set().contains(o.vertex_pointer));
                assert(f.pointers.to_set().contains(o.vertex_pointer));
                lemma_fresh_first(f, new_pointer, o.vertex_pointer);
            }
            assert forall|i: int| 0 <= i < w.vertex.pointers.len() implies self.ids_by_vertex_first@.contains_key(
                #[trigger] w.vertex.pointers[i].first,
            ) by {
                let q = w.vertex.pointers[i];
                assert(w.vertex.pointers.to_set().contains(q));
                if q != new_pointer {
                    assert(f.pointers.to_set().contains(q));
                    assert(v.vertex.pointers.to_set().contains(q));
                    let j = choose|j: int| 0 <= j < v.vertex.pointers.len() && v.vertex.pointers[j] == q;
                    let k = choose|k: int| 0 <= k < v.vertex.pointers.len() && v.vertex.pointers[k] == old_pointer;
                    assert(old_by_vertex.contains_key(v.vertex.pointers[j].first));
                    if q.first == old_pointer.first {
                        assert(j == k);
                    }
                }
            }
            assert(no_reallocation(w.vertex)) by {
                assert forall|i: int| 0 <= i < w.vertex.events.len() implies !(#[trigger] w.vertex.events[i] is Reallocate) by {
                    if i < v.vertex.events.len() {
                        assert(w.vertex.events[i] == v.vertex.events[i]);
                    }
                }
            }
            assert(w.wf());
        }
        assert(self.wf());
    }

    /// The record of object `id`, if there is one.
    pub fn get(&self, id: BatchObjectId) -> (r: Option<&BatchObjectRecord>)
        ensures
            r == (if self@.objects.contains_key(id.0) {
                Some(&self@.objects[id.0])
            } else {
                None
            }),
    {
        self.objects.get(&id.0)
    }

    /// Length of the used part of the index buffer.
    pub fn index_allocator_len(&self) -> (r: usize)
        ensures
            r == self@.index.len,
    {
        self.index_allocator.len()
    }

    /// Drops every mark of what is to be written again.
    pub fn clear_events(&mut self)
        requires
            old(self).wf(),
        ensures
            final(self).wf(),
            final(self)@ == (ManagerView {
                index_rewrites: Set::empty(),
                vertex_rewrites: Set::empty(),
                ..old(self)@
            }),
    {
        self.index_rewrites.clear();
        self.vertex_rewrites.clear();
    }
}

} // verus!
