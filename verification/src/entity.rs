//! Handing out entity ids, and renumbering the entities of a saved world.
use vstd::prelude::*;
use std::collections::{BTreeSet, HashMap};
use vstd::std_specs::btree::spec_btree_keys_iter;
use vstd::std_specs::iter::IteratorSpec;
use crate::component::EntityId;

verus! {

broadcast use {vstd::std_specs::btree::group_btree_axioms, vstd::laws_cmp::group_laws_cmp, vstd::std_specs::hash::group_hash_axioms};

/// The abstract state of an id manager.
pub struct IdManagerView {
    /// Entities alive.
    pub ids: Set<EntityId>,
    /// Entities created since the last pull and not freed since.
    pub vacated: Set<EntityId>,
    /// The id the next entity gets.
    pub next: EntityId,
}

impl IdManagerView {
    /// Every live id was handed out before `next`, and every new entity is alive.
    pub open spec fn wf(self) -> bool {
        &&& forall|id: EntityId| #[trigger] self.ids.contains(id) ==> id < self.next
        &&& self.vacated.subset_of(self.ids)
    }
}

/// How many of the ids in `s` are below `x`.
pub open spec fn rank(s: Set<EntityId>, x: EntityId) -> nat {
    s.filter(|y: EntityId| y < x).len()
}

/// The ids from `lo` up to, not including, `hi`.
pub open spec fn id_range(lo: EntityId, hi: EntityId) -> Set<EntityId> {
    Set::new(|x: EntityId| lo <= x < hi)
}

/// A set of ids is walked in increasing order.
proof fn lemma_iter_ids_increasing(m: &BTreeSet<EntityId>)
    ensures
        forall|a: int, b: int|
            0 <= a < b < spec_btree_keys_iter(m).remaining().len() ==> *spec_btree_keys_iter(m).remaining()[a]
                < *spec_btree_keys_iter(m).remaining()[b],
{
    lemma_id_refs_ordered();
    let s = spec_btree_keys_iter(m).remaining();
    assert forall|a: int, b: int| 0 <= a < b < s.len() implies *s[a] < *s[b] by {
        assert(vstd::std_specs::cmp::OrdSpec::cmp_spec(&s[a], &s[b]) is Less);
    }
}

/// In a sequence of increasing ids, `k` ids of the sequence are below the one at `k`.
proof fn lemma_rank_in_increasing(s: Seq<EntityId>, k: int)
    requires
        forall|i: int, j: int| 0 <= i < j < s.len() ==> s[i] < s[j],
        0 <= k < s.len(),
    ensures
        rank(s.to_set(), s[k]) == k,
{
    let below = s.to_set().filter(|y: EntityId| y < s[k]);
    let t = s.take(k);
    assert(below =~= t.to_set()) by {
        assert forall|x: EntityId| below.contains(x) implies t.to_set().contains(x) by {
            let j = choose|j: int| 0 <= j < s.len() && s[j] == x;
            if j >= k {
                assert(j == k || s[k] < s[j]);
            }
            assert(t[j] == x);
        }
        assert forall|x: EntityId| t.to_set().contains(x) implies below.contains(x) by {
            let j = choose|j: int| 0 <= j < t.len() && t[j] == x;
            assert(s[j] == x);
        }
    }
    assert forall|i: int, j: int| 0 <= i < t.len() && 0 <= j < t.len() && i != j implies t[i] != t[j] by {
        if i < j {
            assert(s[i] < s[j]);
        } else {
            assert(s[j] < s[i]);
        }
    }
    t.unique_seq_to_set();
}

/// References to ids are ordered as the ids are.
proof fn lemma_id_refs_ordered()
    ensures
        vstd::laws_cmp::obeys_cmp::<&EntityId>(),
{
    reveal(vstd::laws_eq::obeys_eq_spec_properties);
    reveal(vstd::laws_cmp::obeys_partial_cmp_spec_properties);
    reveal(vstd::laws_cmp::obeys_cmp_partial_ord);
    reveal(vstd::laws_cmp::obeys_cmp_ord);
}

/// Hands out increasing entity ids and keeps track of the entities alive.
#[derive(Debug)]
pub struct IdManager {
    entity_ids: BTreeSet<EntityId>,
    vacated_entities: BTreeSet<EntityId>,
    next_id: EntityId,
}

impl View for IdManager {
    type V = IdManagerView;

    closed spec fn view(&self) -> IdManagerView {
        IdManagerView { ids: self.entity_ids@, vacated: self.vacated_entities@, next: self.next_id }
    }
}

/// The live entities of a manager, ready to be written out.
pub struct EntityManagerData {
    pub entity_ids: BTreeSet<EntityId>,
}

impl IdManager {
    /// A manager whose first entity gets `first_id`.
    pub fn new(first_id: EntityId) -> (r: Self)
        ensures
            r@.wf(),
            r@.ids == Set::<EntityId>::empty(),
            r@.vacated == Set::<EntityId>::empty(),
            r@.next == first_id,
    {
        IdManager { entity_ids: BTreeSet::new(), vacated_entities: BTreeSet::new(), next_id: first_id }
    }

    /// Creates an entity: it gets the next id, and is alive and new.
    pub fn gen(&mut self) -> (r: EntityId)
        requires
            old(self)@.wf(),
            old(self)@.next < EntityId::MAX,
        ensures
            final(self)@.wf(),
            r == old(self)@.next,
            final(self)@.next == old(self)@.next + 1,
            final(self)@.ids == old(self)@.ids.insert(r),
            final(self)@.vacated == old(self)@.vacated.insert(r),
    {
        let entity_id = self.next_id;
        self.next_id = entity_id + 1;
        self.entity_ids.insert(entity_id);
        self.vacated_entities.insert(entity_id);
        entity_id
    }

    /// The id the next entity gets.
    pub fn next(&self) -> (r: EntityId)
        ensures
            r == self@.next,
    {
        self.next_id
    }

    /// Removes an entity.
    pub fn free(&mut self, entity_id: EntityId)
        requires
            old(self)@.wf(),
        ensures
            final(self)@.wf(),
            final(self)@.ids == old(self)@.ids.remove(entity_id),
            final(self)@.vacated == old(self)@.vacated.remove(entity_id),
            final(self)@.next == old(self)@.next,
    {
        self.vacated_entities.remove(&entity_id);
        self.entity_ids.remove(&entity_id);
    }

    /// Whether the entity is alive.
    pub fn contains(&self, entity_id: EntityId) -> (r: bool)
        ensures
            r == self@.ids.contains(entity_id),
    {
        self.entity_ids.contains(&entity_id)
    }

    /// The entities alive.
    pub fn entity_ids(&self) -> (r: &BTreeSet<EntityId>)
        ensures
            r@ == self@.ids,
    {
        &self.entity_ids
    }

    /// Takes the entities created since the last pull and not freed since.
    pub fn pull_vacated_entities(&mut self) -> (r: BTreeSet<EntityId>)
        requires
            old(self)@.wf(),
        ensures
            final(self)@.wf(),
            r@ == old(self)@.vacated,
            final(self)@.vacated == Set::<EntityId>::empty(),
            final(self)@.ids == old(self)@.ids,
            final(self)@.next == old(self)@.next,
    {
        let mut taken = BTreeSet::new();
        std::mem::swap(&mut taken, &mut self.vacated_entities);
        taken
    }

    /// Gives every entity of a saved world a new id, in increasing order of the old
    /// ids, and returns the mapping from old ids to new ones.
    pub fn load_data(&mut self, data: EntityManagerData) -> (r: HashMap<EntityId, EntityId>)
        requires
            old(self)@.wf(),
            old(self)@.next + data.entity_ids@.len() <= EntityId::MAX,
        ensures
            final(self)@.wf(),
            r@.dom() == data.entity_ids@,
            forall|x: EntityId| #[trigger] data.entity_ids@.contains(x) ==> r@[x] == old(self)@.next + rank(data.entity_ids@, x),
            final(self)@.next == old(self)@.next + data.entity_ids@.len(),
            final(self)@.ids == old(self)@.ids + id_range(old(self)@.next, final(self)@.next),
            final(self)@.vacated == old(self)@.vacated + id_range(old(self)@.next, final(self)@.next),
    {
        let ghost start = self@;
        let mut mapping: HashMap<EntityId, EntityId> = HashMap::new();
        for id in it: data.entity_ids.iter()
            invariant
                self@.wf(),
                start.next + data.entity_ids@.len() <= EntityId::MAX,
                it.seq() == spec_btree_keys_iter(&data.entity_ids).remaining(),
                it.seq().len() == data.entity_ids@.len(),
                it.seq().no_duplicates(),
                self@.next == start.next + it.index(),
                self@.ids == start.ids + id_range(start.next, self@.next),
                self@.vacated == start.vacated + id_range(start.next, self@.next),
                mapping@.dom() == Set::new(|x: EntityId| exists|k: int| 0 <= k < it.index() && *#[trigger] it.seq()[k] == x),
                forall|k: int| 0 <= k < it.index() ==> mapping@[*#[trigger] it.seq()[k]] == start.next + k,
        {
            let ghost i = it.index();
            assert(*id == *it.seq()[i]);
            let new_id = self.gen();
            mapping.insert(*id, new_id);
            proof {
                assert forall|k: int| 0 <= k < i + 1 implies mapping@[*#[trigger] it.seq()[k]] == start.next + k by {
                    if k < i {
                        assert(it.seq()[k] != it.seq()[i]);
                    }
                }
                assert(mapping@.dom() =~= Set::new(|x: EntityId| exists|k: int| 0 <= k < i + 1 && *#[trigger] it.seq()[k] == x)) by {
                    assert(it.seq()[i] == id);
                }
                assert(id_range(start.next, (start.next + i) as EntityId).insert(new_id) =~= id_range(start.next, self@.next));
            }
        }
        proof {
            let sq = spec_btree_keys_iter(&data.entity_ids).remaining();
            let keys = sq.map_values(|k: &EntityId| *k);
            assert(keys.to_set() =~= data.entity_ids@) by {
                assert(sq.unref().to_set() == data.entity_ids@);
                assert forall|x: EntityId| keys.to_set().contains(x) <==> sq.unref().to_set().contains(x) by {
                    if keys.to_set().contains(x) {
                        let k = choose|k: int| 0 <= k < keys.len() && keys[k] == x;
                        assert(sq.unref()[k] == x);
                    }
                    if sq.unref().to_set().contains(x) {
                        let k = choose|k: int| 0 <= k < sq.unref().len() && sq.unref()[k] == x;
                        assert(keys[k] == x);
                    }
                }
            }
            lemma_iter_ids_increasing(&data.entity_ids);
            assert forall|a: int, b: int| 0 <= a < b < keys.len() implies keys[a] < keys[b] by {
                assert(*sq[a] < *sq[b]);
            }
            assert(mapping@.dom() =~= data.entity_ids@) by {
                assert forall|x: EntityId| mapping@.dom().contains(x) <==> keys.to_set().contains(x) by {
                    if keys.to_set().contains(x) {
                        let k = choose|k: int| 0 <= k < keys.len() && keys[k] == x;
                        assert(*sq[k] == x);
                    }
                    if mapping@.dom().contains(x) {
                        let k = choose|k: int| 0 <= k < keys.len() && *#[trigger] sq[k] == x;
                        assert(keys[k] == x);
                    }
                }
            }
            assert forall|x: EntityId| #[trigger] data.entity_ids@.contains(x) implies mapping@[x] == start.next + rank(data.entity_ids@, x) by {
                assert(keys.to_set().contains(x));
                let k = choose|k: int| 0 <= k < keys.len() && keys[k] == x;
                assert(*sq[k] == x);
                lemma_rank_in_increasing(keys, k);
            }
        }
        mapping
    }

    /// The live entities, ready to be written out.
    pub fn to_data(&self) -> (r: EntityManagerData)
        ensures
            r.entity_ids@ == self@.ids,
    {
        EntityManagerData { entity_ids: self.entity_ids.clone() }
    }
}

/// An entity gets an id that no live entity has.
pub proof fn lemma_gen_fresh(v: IdManagerView)
    requires
        v.wf(),
    ensures
        !v.ids.contains(v.next),
{
}

/// Ids only grow. Along a run of states in which every step keeps or raises the next
/// id (as the contract of every operation of `IdManager` states), an entity created
/// at step `i` (the step raises the next id by one and hands out `s[i].next`) has a
/// smaller id than every id handed out at a later step `j`, which is `s[j].next`.
pub proof fn lemma_ids_increase(s: Seq<IdManagerView>, i: int, j: int)
    requires
        forall|k: int| 0 <= k < s.len() - 1 ==> #[trigger] s[k].next <= s[k + 1].next,
        0 <= i < j < s.len(),
        s[i + 1].next == s[i].next + 1,
    ensures
        s[i].next < s[j].next,
    decreases j - i,
{
    if j > i + 1 {
        lemma_ids_increase(s, i, j - 1);
        assert(s[j - 1].next <= s[j].next);
    }
}

/// Renumbering the entities of a saved world gives distinct entities distinct new
/// ids, none of them in use before.
pub proof fn lemma_load_data_fresh(v: IdManagerView, s: Set<EntityId>, x: EntityId, y: EntityId)
    requires
        v.wf(),
        s.finite(),
        s.contains(x),
        s.contains(y),
        x != y,
        v.next + s.len() <= EntityId::MAX,
    ensures
        v.next + rank(s, x) != v.next + rank(s, y),
        !v.ids.contains((v.next + rank(s, x)) as EntityId),
{
    vstd::set_lib::lemma_len_subset(s.filter(|z: EntityId| z < x), s);
    if x < y {
        lemma_rank_strict(s, x, y);
    } else {
        lemma_rank_strict(s, y, x);
    }
}

/// Renumbering keeps the order of the saved ids and packs them: a smaller saved id
/// gets a smaller new id, and the new ids lie in `next .. next + s.len()`.
pub proof fn lemma_load_data_keeps_order(s: Set<EntityId>, x: EntityId, y: EntityId)
    requires
        s.finite(),
        s.contains(x),
        s.contains(y),
    ensures
        x < y ==> rank(s, x) < rank(s, y),
        rank(s, x) < s.len(),
{
    if x < y {
        lemma_rank_strict(s, x, y);
    }
    let below = s.filter(|z: EntityId| z < x);
    assert(below.subset_of(s.remove(x)));
    vstd::set_lib::lemma_len_subset(below, s.remove(x));
}

proof fn lemma_rank_strict(s: Set<EntityId>, x: EntityId, y: EntityId)
    requires
        s.finite(),
        s.contains(x),
        x < y,
    ensures
        rank(s, x) < rank(s, y),
{
    let a = s.filter(|z: EntityId| z < x);
    let b = s.filter(|z: EntityId| z < y);
    assert(a.subset_of(b));
    assert(b.contains(x) && !a.contains(x));
    assert(a.subset_of(b.remove(x)));
    vstd::set_lib::lemma_len_subset(a, b.remove(x));
}

impl Default for IdManager {
    /// A manager whose first entity gets id 1.
    fn default() -> (r: Self)
        ensures
            r@.wf(),
            r@.ids == Set::<EntityId>::empty(),
            r@.vacated == Set::<EntityId>::empty(),
            r@.next == 1,
    {
        IdManager::new(1)
    }
}

} // verus!

verus! {

/// An entity about to be created: its id is known now, and it is created when the
/// token is committed; a token dropped without a commit creates nothing.
pub struct EntityToken<'a> {
    pub entity_id: EntityId,
    pub manager: &'a mut IdManager,
}

impl<'a> EntityToken<'a> {
    pub closed spec fn spec_entity_id(&self) -> EntityId {
        self.entity_id
    }

    /// The manager as it is now.
    pub closed spec fn current(&self) -> IdManagerView {
        (*self.manager)@
    }

    /// The id the entity gets.
    pub fn entity_id(&self) -> (r: EntityId)
        ensures
            r == self.spec_entity_id(),
    {
        self.entity_id
    }

    /// Creates the entity.
    pub fn commit(self) -> (r: EntityId)
        requires
            self.current().wf(),
            self.current().next == self.spec_entity_id(),
            self.spec_entity_id() < EntityId::MAX,
        ensures
            r == self.spec_entity_id(),
            (*final(self.manager))@.wf(),
            (*final(self.manager))@.next == r + 1,
            (*final(self.manager))@.ids == self.current().ids.insert(r),
            (*final(self.manager))@.vacated == self.current().vacated.insert(r),
    {
        let EntityToken { entity_id, manager } = self;
        manager.gen()
    }
}

impl IdManager {
    /// Starts creating an entity: the token tells its id before it exists.
    pub fn begin(&mut self) -> (r: EntityToken<'_>)
        ensures
            r.spec_entity_id() == old(self)@.next,
            r.current() == old(self)@,
            *r.manager == *old(self),
            *final(self) == *final(r.manager),
    {
        let entity_id = self.next_id;
        EntityToken { entity_id, manager: self }
    }
}

} // verus!

verus! {

/// Renumbers entity ids while a saved world is loaded: with a mapping, an id in it
/// becomes the id it maps to; every other id stays as it is.
#[derive(Debug, Default)]
pub struct EntityRemapper {
    mapping: Option<HashMap<EntityId, EntityId>>,
}

/// The id that `entity_id` becomes under `mapping`.
pub open spec fn remapped(mapping: Option<Map<EntityId, EntityId>>, entity_id: EntityId) -> EntityId {
    match mapping {
        Some(m) => if m.contains_key(entity_id) {
            m[entity_id]
        } else {
            entity_id
        },
        None => entity_id,
    }
}

impl EntityRemapper {
    /// The mapping in force.
    pub closed spec fn spec_mapping(&self) -> Option<Map<EntityId, EntityId>> {
        match self.mapping {
            Some(m) => Some(m@),
            None => None,
        }
    }

    pub fn new(mapping: Option<HashMap<EntityId, EntityId>>) -> (r: Self)
        ensures
            r.spec_mapping() == (match mapping {
                Some(m) => Some(m@),
                None => None::<Map<EntityId, EntityId>>,
            }),
    {
        EntityRemapper { mapping }
    }

    /// Puts a mapping in force, or, with `None`, stops renumbering.
    pub fn set_mapping(&mut self, mapping: Option<HashMap<EntityId, EntityId>>)
        ensures
            final(self).spec_mapping() == (match mapping {
                Some(m) => Some(m@),
                None => None::<Map<EntityId, EntityId>>,
            }),
    {
        self.mapping = mapping;
    }

    /// The id that `entity_id` becomes.
    pub fn remap(&self, entity_id: EntityId) -> (r: EntityId)
        ensures
            r == remapped(self.spec_mapping(), entity_id),
            match self.spec_mapping() {
                Some(m) => (m.contains_key(entity_id) ==> r == m[entity_id]) && (!m.contains_key(entity_id) ==> r
                    == entity_id),
                None => r == entity_id,
            },
    {
        match &self.mapping {
            Some(mapping) => match mapping.get(&entity_id) {
                Some(to) => *to,
                None => entity_id,
            },
            None => entity_id,
        }
    }
}

/// Renumbering with the mapping that `load_data` gave hands each saved entity its
/// new id, the next id of the manager plus the number of saved ids below it, and
/// leaves every other id as it is.
pub proof fn lemma_remap_after_load(m: Map<EntityId, EntityId>, saved: Set<EntityId>, next: EntityId, id: EntityId)
    requires
        m.dom() == saved,
        forall|x: EntityId| #[trigger] saved.contains(x) ==> m[x] == next + rank(saved, x),
    ensures
        saved.contains(id) ==> remapped(Some(m), id) == next + rank(saved, id),
        !saved.contains(id) ==> remapped(Some(m), id) == id,
{
}

} // verus!
