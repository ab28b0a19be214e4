//! A group of components of one kind, at most one per entity.
//!
//! Components are stored densely; an index map gives the position of each entity's
//! component. Removing a component moves the last one into its place.
use vstd::prelude::*;
use std::collections::HashMap;
use crate::component::{Component, EntityId};
use crate::zip::{ZipEntityBase, ZipEntityIter, ZipEntityIterMut};

verus! {

broadcast use vstd::std_specs::hash::group_hash_axioms;

pub type ComponentIndex = usize;

/// Position of the first entry of entity `id` at or after `i`; -1 when there is none.
pub open spec fn index_of_from<T>(s: Seq<(EntityId, T)>, id: EntityId, i: int) -> int
    decreases s.len() - i,
{
    if i < 0 || i >= s.len() {
        -1
    } else if s[i].0 == id {
        i
    } else {
        index_of_from(s, id, i + 1)
    }
}

/// Position of the entry of entity `id`; -1 when there is none.
pub open spec fn index_of<T>(s: Seq<(EntityId, T)>, id: EntityId) -> int {
    index_of_from(s, id, 0)
}

/// No entity has two entries.
pub open spec fn unique_ids<T>(s: Seq<(EntityId, T)>) -> bool {
    forall|i: int, j: int| 0 <= i < j < s.len() ==> s[i].0 != s[j].0
}

/// The entries after removing the one at `i`: the last entry takes its place.
pub open spec fn swap_remove_entry<T>(s: Seq<(EntityId, T)>, i: int) -> Seq<(EntityId, T)> {
    if i == s.len() - 1 {
        s.drop_last()
    } else {
        s.update(i, s.last()).drop_last()
    }
}

pub open spec fn component_entry<T>(c: Component<T>) -> (EntityId, T) {
    (c.spec_entity_id(), c.spec_inner())
}

proof fn lemma_index_of_from<T>(s: Seq<(EntityId, T)>, id: EntityId, i: int)
    requires
        0 <= i,
    ensures
        ({
            let r = index_of_from(s, id, i);
            &&& r == -1 ==> forall|j: int| i <= j < s.len() ==> s[j].0 != id
            &&& r != -1 ==> i <= r < s.len() && s[r].0 == id && forall|j: int| i <= j < r ==> s[j].0 != id
        }),
    decreases s.len() - i,
{
    if i < s.len() && s[i].0 != id {
        lemma_index_of_from(s, id, i + 1);
    }
}

/// In entries with unique ids, `index_of` finds the one entry of an entity.
pub proof fn lemma_index_of<T>(s: Seq<(EntityId, T)>, id: EntityId)
    requires
        unique_ids(s),
    ensures
        index_of(s, id) == -1 <==> forall|j: int| 0 <= j < s.len() ==> s[j].0 != id,
        index_of(s, id) != -1 ==> 0 <= index_of(s, id) < s.len() && s[index_of(s, id)].0 == id,
        forall|j: int| 0 <= j < s.len() && s[j].0 == id ==> j == index_of(s, id),
{
    lemma_index_of_from(s, id, 0);
}

/// Whether `s` has an entry of entity `id`.
pub open spec fn has_entry<T>(s: Seq<(EntityId, T)>, id: EntityId) -> bool {
    exists|i: int| 0 <= i < s.len() && #[trigger] s[i].0 == id
}

/// The value of the entry of entity `id` in `s`, when there is one.
pub open spec fn entry_value<T>(s: Seq<(EntityId, T)>, id: EntityId) -> T {
    s[choose|i: int| 0 <= i < s.len() && #[trigger] s[i].0 == id].1
}

/// In entries with unique ids, the entry of an entity is the one `index_of` finds.
pub proof fn lemma_entry_index<T>(s: Seq<(EntityId, T)>, id: EntityId)
    requires
        unique_ids(s),
    ensures
        has_entry(s, id) <==> index_of(s, id) >= 0,
        has_entry(s, id) ==> entry_value(s, id) == s[index_of(s, id)].1,
{
    lemma_index_of(s, id);
    if has_entry(s, id) {
        let i = choose|i: int| 0 <= i < s.len() && #[trigger] s[i].0 == id;
        assert(i == index_of(s, id));
    } else if index_of(s, id) >= 0 {
        assert(s[index_of(s, id)].0 == id);
    }
}

/// The entries of the components `s`.
pub open spec fn entries_of<T>(s: Seq<Component<T>>) -> Seq<(EntityId, T)> {
    s.map_values(|c: Component<T>| component_entry(c))
}

/// The components `s` are of the entities of `e`, in the same order.
pub open spec fn same_ids<T>(s: Seq<Component<T>>, e: Seq<(EntityId, T)>) -> bool {
    &&& s.len() == e.len()
    &&& forall|i: int| 0 <= i < s.len() ==> #[trigger] s[i].spec_entity_id() == e[i].0
}

/// A group of components, at most one per entity.
#[derive(Clone, Debug)]
pub struct ComponentGroup<T> {
    indices: HashMap<EntityId, ComponentIndex>,
    components: Vec<Component<T>>,
}

/// The components of a group, ready to be written out.
pub struct ComponentGroupSerializableData<'a, T> {
    pub components: &'a Vec<Component<T>>,
}

/// Components read back in, ready to be loaded into a group.
pub struct ComponentGroupDeserializableData<T> {
    pub components: Vec<Component<T>>,
}

#[derive(Debug)]
pub enum ComponentGroupError {
    NotFoundEntity { id: EntityId },
}

#[derive(Debug)]
pub struct ComponentGroupDebug<'a, T>(pub &'a Vec<Component<T>>);

impl<T> ComponentGroup<T> {
    /// The entries, in storage order.
    pub closed spec fn entries(&self) -> Seq<(EntityId, T)> {
        self.components@.map_values(|c: Component<T>| component_entry(c))
    }

    /// The index map agrees with the storage: each stored entity is found at its
    /// position, and nothing else is in the map.
    pub closed spec fn wf(&self) -> bool {
        let c = self.components@;
        &&& forall|i: int|
            0 <= i < c.len() ==> self.indices@.contains_key(#[trigger] c[i].spec_entity_id())
                && self.indices@[c[i].spec_entity_id()] == i
        &&& forall|id: EntityId|
            #[trigger] self.indices@.contains_key(id) ==> self.indices@[id] < c.len()
                && c[self.indices@[id] as int].spec_entity_id() == id
    }

    /// Whether entity `id` has a component.
    pub open spec fn contains(&self, id: EntityId) -> bool {
        has_entry(self.entries(), id)
    }

    /// The value of entity `id`, when it has a component.
    pub open spec fn value_of(&self, id: EntityId) -> T {
        entry_value(self.entries(), id)
    }

    /// A well-formed group never holds two components of one entity.
    pub proof fn lemma_unique_ids(&self)
        requires
            self.wf(),
        ensures
            unique_ids(self.entries()),
    {
        let c = self.components@;
        assert forall|i: int, j: int| 0 <= i < j < self.entries().len() implies self.entries()[i].0 != self.entries()[j].0 by {
            assert(self.entries()[i].0 == c[i].spec_entity_id());
            assert(self.entries()[j].0 == c[j].spec_entity_id());
            assert(self.indices@[c[i].spec_entity_id()] == i);
            assert(self.indices@[c[j].spec_entity_id()] == j);
        }
    }

    proof fn lemma_index_agrees(&self, id: EntityId)
        requires
            self.wf(),
        ensures
            self.indices@.contains_key(id) <==> index_of(self.entries(), id) >= 0,
            self.indices@.contains_key(id) ==> self.indices@[id] == index_of(self.entries(), id),
            self.entries().len() == self.components@.len(),
            self.contains(id) <==> index_of(self.entries(), id) >= 0,
            self.contains(id) ==> self.value_of(id) == self.entries()[index_of(self.entries(), id)].1,
    {
        self.lemma_unique_ids();
        lemma_index_of(self.entries(), id);
        lemma_entry_index(self.entries(), id);
        if self.indices@.contains_key(id) {
            let i = self.indices@[id] as int;
            assert(self.entries()[i].0 == id);
        } else {
            if index_of(self.entries(), id) >= 0 {
                let i = index_of(self.entries(), id);
                assert(self.components@[i].spec_entity_id() == id);
            }
        }
    }

    pub fn new() -> (r: Self)
        ensures
            r.wf(),
            r.entries() == Seq::<(EntityId, T)>::empty(),
    {
        let r = ComponentGroup { indices: HashMap::new(), components: Vec::new() };
        assert(r.entries() =~= Seq::<(EntityId, T)>::empty());
        r
    }

    /// Adds the component of an entity that has none in this group.
    pub fn push(&mut self, entity_id: EntityId, inner: T)
        requires
            old(self).wf(),
            !old(self).contains(entity_id),
        ensures
            final(self).wf(),
            final(self).entries() == old(self).entries().push((entity_id, inner)),
    {
        proof {
            self.lemma_index_agrees(entity_id);
        }
        let component = Component::new(entity_id, inner);
        let index = self.components.len();
        self.components.push(component);
        self.indices.insert(entity_id, index);
        assert(self.entries() =~= old(self).entries().push((entity_id, inner)));
        assert forall|id: EntityId| #[trigger] self.indices@.contains_key(id) implies self.indices@[id] < self.components@.len()
            && self.components@[self.indices@[id] as int].spec_entity_id() == id by {
            if id != entity_id {
                assert(old(self).indices@.contains_key(id));
            }
        }
        assert forall|i: int| 0 <= i < self.components@.len() implies self.indices@.contains_key(#[trigger] self.components@[i].spec_entity_id())
            && self.indices@[self.components@[i].spec_entity_id()] == i by {
            if i < index {
                assert(old(self).components@[i] == self.components@[i]);
                assert(old(self).indices@.contains_key(self.components@[i].spec_entity_id()));
                assert(self.components@[i].spec_entity_id() != entity_id);
            }
        }
    }

    /// Removes the component of `entity_id` and gives its value back; the last
    /// component takes its place.
    pub fn remove(&mut self, entity_id: EntityId) -> (r: Option<T>)
        requires
            old(self).wf(),
        ensures
            final(self).wf(),
            ({
                let i = index_of(old(self).entries(), entity_id);
                if i < 0 {
                    r is None && final(self).entries() == old(self).entries()
                } else {
                    r == Some(old(self).entries()[i].1) && final(self).entries() == swap_remove_entry(old(self).entries(), i)
                }
            }),
    {
        proof {
            self.lemma_index_agrees(entity_id);
        }
        let ghost old_entries = self.entries();
        let ghost old_c = self.components@;
        let index = match self.indices.remove(&entity_id) {
            None => {
                return None;
            },
            Some(index) => index,
        };
        assert(old_c[index as int].spec_entity_id() == entity_id);
        if index != self.components.len() - 1 {
            let last = self.components.pop().unwrap();
            let last_id = last.entity_id();
            assert(last_id != entity_id);
            assert(old(self).indices@.contains_key(last_id));
            self.indices.insert(last_id, index);
            let mut removed = last;
            std::mem::swap(&mut self.components[index], &mut removed);
            let ghost c = self.components@;
            assert(c =~= old_c.update(index as int, old_c.last()).drop_last());
            assert(self.entries() =~= swap_remove_entry(old_entries, index as int));
            assert forall|i: int| 0 <= i < c.len() implies self.indices@.contains_key(#[trigger] c[i].spec_entity_id())
                && self.indices@[c[i].spec_entity_id()] == i by {
                if i != index {
                    assert(c[i] == old_c[i]);
                    assert(old(self).indices@.contains_key(c[i].spec_entity_id()));
                    assert(c[i].spec_entity_id() != entity_id);
                    assert(c[i].spec_entity_id() != last_id) by {
                        assert(old(self).indices@[last_id] == old_c.len() - 1);
                    }
                }
            }
            assert forall|id: EntityId| #[trigger] self.indices@.contains_key(id) implies self.indices@[id] < c.len()
                && c[self.indices@[id] as int].spec_entity_id() == id by {
                if id != last_id {
                    assert(old(self).indices@.contains_key(id));
                    assert(old(self).indices@[id] != index);
                    assert(old(self).indices@[id] != old_c.len() - 1) by {
                        assert(old_c[old_c.len() - 1].spec_entity_id() == last_id);
                    }
                }
            }
            Some(removed.into_inner())
        } else {
            let removed = self.components.remove(index);
            let ghost c = self.components@;
            assert(c =~= old_c.drop_last());
            assert(self.entries() =~= swap_remove_entry(old_entries, index as int));
            assert forall|i: int| 0 <= i < c.len() implies self.indices@.contains_key(#[trigger] c[i].spec_entity_id())
                && self.indices@[c[i].spec_entity_id()] == i by {
                assert(c[i] == old_c[i]);
                assert(old(self).indices@.contains_key(c[i].spec_entity_id()));
            }
            assert forall|id: EntityId| #[trigger] self.indices@.contains_key(id) implies self.indices@[id] < c.len()
                && c[self.indices@[id] as int].spec_entity_id() == id by {
                assert(old(self).indices@.contains_key(id));
            }
            Some(removed.into_inner())
        }
    }

    /// Removes every component.
    pub fn remove_all(&mut self)
        ensures
            final(self).wf(),
            final(self).entries() == Seq::<(EntityId, T)>::empty(),
    {
        self.indices.clear();
        self.components.clear();
        assert(self.entries() =~= Seq::<(EntityId, T)>::empty());
    }

    /// The value of the component of `entity_id`, if it has one.
    pub fn get(&self, entity_id: EntityId) -> (r: Option<&T>)
        requires
            self.wf(),
        ensures
            match r {
                Some(v) => self.contains(entity_id) && *v == self.value_of(entity_id),
                None => !self.contains(entity_id),
            },
    {
        proof {
            self.lemma_index_agrees(entity_id);
        }
        let index = self.indices.get(&entity_id)?;
        Some(self.components[*index].inner())
    }

    /// A mutable reference to the value of the component of `entity_id`, if it has
    /// one; what is written through it becomes the component's value.
    pub fn get_mut(&mut self, entity_id: EntityId) -> (r: Option<&mut T>)
        requires
            old(self).wf(),
        ensures
            match r {
                Some(v) => old(self).contains(entity_id) && *v == old(self).value_of(entity_id)
                    && final(self).wf() && final(self).entries() == old(self).entries().update(
                    index_of(old(self).entries(), entity_id),
                    (entity_id, *final(v)),
                ),
                None => !old(self).contains(entity_id) && *final(self) == *old(self),
            },
    {
        proof {
            self.lemma_index_agrees(entity_id);
        }
        let index = match self.indices.get(&entity_id) {
            None => {
                return None;
            },
            Some(index) => *index,
        };
        let ghost old_c = self.components@;
        assert(index == index_of(old(self).entries(), entity_id));
        let component = &mut self.components[index];
        let r = component.inner_mut();
        Some(r)
    }

    pub fn get_with_err(&self, entity_id: EntityId) -> (r: Result<&T, ComponentGroupError>)
        requires
            self.wf(),
        ensures
            match r {
                Ok(v) => self.contains(entity_id) && *v == self.value_of(entity_id),
                Err(e) => !self.contains(entity_id) && e == ComponentGroupError::NotFoundEntity { id: entity_id },
            },
    {
        match self.get(entity_id) {
            Some(v) => Ok(v),
            None => Err(ComponentGroupError::NotFoundEntity { id: entity_id }),
        }
    }

    /// The value of the component of `entity_id`, which must exist.
    pub fn entity(&self, entity_id: EntityId) -> (r: &T)
        requires
            self.wf(),
            self.contains(entity_id),
        ensures
            *r == self.value_of(entity_id),
    {
        self.get(entity_id).unwrap()
    }

    pub fn get_mut_with_err(&mut self, entity_id: EntityId) -> (r: Result<&mut T, ComponentGroupError>)
        requires
            old(self).wf(),
        ensures
            match r {
                Ok(v) => old(self).contains(entity_id) && *v == old(self).value_of(entity_id)
                    && final(self).wf() && final(self).entries() == old(self).entries().update(
                    index_of(old(self).entries(), entity_id),
                    (entity_id, *final(v)),
                ),
                Err(e) => !old(self).contains(entity_id) && e == ComponentGroupError::NotFoundEntity { id: entity_id }
                    && *final(self) == *old(self),
            },
    {
        match self.get_mut(entity_id) {
            Some(v) => Ok(v),
            None => Err(ComponentGroupError::NotFoundEntity { id: entity_id }),
        }
    }

    /// A mutable reference to the value of the component of `entity_id`, which must
    /// exist; what is written through it becomes the component's value.
    pub fn entity_mut(&mut self, entity_id: EntityId) -> (r: &mut T)
        requires
            old(self).wf(),
            old(self).contains(entity_id),
        ensures
            *r == old(self).value_of(entity_id),
            final(self).wf(),
            final(self).entries() == old(self).entries().update(
                index_of(old(self).entries(), entity_id),
                (entity_id, *final(r)),
            ),
    {
        self.get_mut(entity_id).unwrap()
    }

    /// Iterates over the components in storage order.
    pub fn iter(&self) -> (r: Iter<'_, T>)
        requires
            self.wf(),
        ensures
            r.wf(),
            r.entries() == self.entries(),
            r.pos() == 0,
    {
        Iter { components: &self.components, indices: &self.indices, pos: 0 }
    }

    /// Iterates over the components in storage order, with mutable references. Once
    /// the iterator is done, the group holds the components it left behind: the
    /// values written through it, in place; as long as every component keeps its
    /// entity (which `IterMut::next` never changes), the group stays well formed.
    pub fn iter_mut(&mut self) -> (r: IterMut<'_, T>)
        requires
            old(self).wf(),
        ensures
            r.wf(),
            r.rest() == old(self).entries(),
            r.pos() == 0,
            final(self).entries() == (*final(r.rest))@.map_values(|c: Component<T>| component_entry(c)),
            same_ids((*final(r.rest))@, old(self).entries()) ==> final(self).wf(),
    {
        let n = self.components.len();
        let indices = &self.indices;
        let rest = self.components.as_mut_slice();
        assert(rest@.len() == n);
        IterMut { rest, indices, pos: 0 }
    }

    /// Adds the components read back in, in their order.
    pub fn load_data(&mut self, data: ComponentGroupDeserializableData<T>)
        requires
            old(self).wf(),
            unique_ids(data.components@.map_values(|c: Component<T>| component_entry(c))),
            forall|i: int| 0 <= i < data.components@.len() ==> !old(self).contains(#[trigger] data.components@[i].spec_entity_id()),
        ensures
            final(self).wf(),
            final(self).entries() == old(self).entries() + data.components@.map_values(|c: Component<T>| component_entry(c)),
    {
        let ghost added = data.components@.map_values(|c: Component<T>| component_entry(c));
        let ghost orig = data.components@;
        let mut components = data.components;
        let ghost mut k: int = 0;
        while components.len() > 0
            invariant
                self.wf(),
                0 <= k <= orig.len(),
                added.len() == orig.len(),
                forall|i: int| 0 <= i < orig.len() ==> #[trigger] added[i] == component_entry(orig[i]),
                components@ == orig.skip(k),
                self.entries() == old(self).entries() + added.take(k),
                unique_ids(added),
                old(self).wf(),
                forall|i: int| 0 <= i < added.len() ==> !old(self).contains(#[trigger] added[i].0),
            decreases components@.len(),
        {
            let component = components.remove(0);
            proof {
                assert(component == orig[k]);
                assert(components@ =~= orig.skip(k + 1));
                assert(added[k] == component_entry(component));
                old(self).lemma_unique_ids();
                self.lemma_unique_ids();
                lemma_index_of(old(self).entries(), added[k].0);
                lemma_index_of(self.entries(), added[k].0);
                assert forall|j: int| 0 <= j < self.entries().len() implies self.entries()[j].0 != added[k].0 by {
                    if j >= old(self).entries().len() {
                        assert(self.entries()[j] == added[j - old(self).entries().len()]);
                    } else {
                        assert(self.entries()[j] == old(self).entries()[j]);
                    }
                }
            }
            let id = component.entity_id();
            self.push(id, component.into_inner());
            proof {
                k = k + 1;
                assert(self.entries() =~= old(self).entries() + added.take(k));
            }
        }
        assert(added.take(k) =~= added);
    }

    /// The components, ready to be written out.
    pub fn to_data(&self) -> (r: ComponentGroupSerializableData<'_, T>)
        ensures
            r.components@.map_values(|c: Component<T>| component_entry(c)) == self.entries(),
    {
        ComponentGroupSerializableData { components: &self.components }
    }

    /// The components, ready to be printed.
    pub fn debug(&self) -> (r: ComponentGroupDebug<'_, T>) where T: std::fmt::Debug
        ensures
            r.0@.map_values(|c: Component<T>| component_entry(c)) == self.entries(),
    {
        ComponentGroupDebug(&self.components)
    }

    /// Number of components.
    pub fn len(&self) -> (r: usize)
        requires
            self.wf(),
        ensures
            r == self.entries().len(),
    {
        proof {
            self.lemma_unique_ids();
            let ids = self.components@.map_values(|c: Component<T>| c.spec_entity_id());
            assert forall|id: EntityId| self.indices@.dom().contains(id) implies ids.to_set().contains(id) by {
                let i = self.indices@[id] as int;
                assert(ids[i] == id);
            }
            assert forall|id: EntityId| ids.to_set().contains(id) implies self.indices@.dom().contains(id) by {
                let i = choose|i: int| 0 <= i < ids.len() && ids[i] == id;
                assert(self.components@[i].spec_entity_id() == id);
            }
            assert(self.indices@.dom() =~= ids.to_set());
            assert forall|i: int, j: int| 0 <= i < ids.len() && 0 <= j < ids.len() && i != j implies ids[i] != ids[j] by {
                if i < j {
                    assert(self.entries()[i].0 != self.entries()[j].0);
                } else {
                    assert(self.entries()[j].0 != self.entries()[i].0);
                }
            }
            ids.unique_seq_to_set();
        }
        self.indices.len()
    }

    pub fn is_empty(&self) -> (r: bool)
        ensures
            r == (self.entries().len() == 0),
    {
        self.components.is_empty()
    }
}

impl<T> Default for ComponentGroup<T> {
    fn default() -> (r: Self)
        ensures
            r.wf(),
            r.entries() == Seq::<(EntityId, T)>::empty(),
    {
        Self::new()
    }
}

impl<T> ComponentGroup<T> {
    /// Walking the entries in storage order, as `iter` does, meets every entity the
    /// group holds exactly once, each with the value `get` gives for it, and
    /// nothing else.
    pub proof fn lemma_entries_are_lookups(&self)
        requires
            self.wf(),
        ensures
            unique_ids(self.entries()),
            forall|i: int|
                0 <= i < self.entries().len() ==> #[trigger] self.contains(self.entries()[i].0)
                    && self.value_of(self.entries()[i].0) == self.entries()[i].1,
            forall|id: EntityId|
                #[trigger] self.contains(id) ==> exists|i: int|
                    0 <= i < self.entries().len() && #[trigger] self.entries()[i].0 == id,
    {
        let s = self.entries();
        self.lemma_unique_ids();
        assert forall|i: int| 0 <= i < s.len() implies #[trigger] self.contains(s[i].0) && self.value_of(s[i].0) == s[i].1 by {
            lemma_index_of(s, s[i].0);
            lemma_entry_index(s, s[i].0);
        }
    }

    /// After the component of a new entity is pushed, that entity is found with the
    /// value given, and every other entity is found, or not, as before, with the
    /// same value; the group holds one component more.
    pub proof fn lemma_get_after_push(before: Self, after: Self, id: EntityId, x: T)
        requires
            before.wf(),
            !before.contains(id),
            after.entries() == before.entries().push((id, x)),
        ensures
            after.contains(id),
            after.value_of(id) == x,
            after.entries().len() == before.entries().len() + 1,
            forall|o: EntityId| o != id ==> (#[trigger] after.contains(o) <==> before.contains(o)),
            forall|o: EntityId| o != id && before.contains(o) ==> #[trigger] after.value_of(o) == before.value_of(o),
    {
        let s = before.entries();
        let t = s.push((id, x));
        before.lemma_unique_ids();
        lemma_index_of(s, id);
        assert forall|i: int, j: int| 0 <= i < j < t.len() implies t[i].0 != t[j].0 by {
            if j == s.len() {
                assert(t[i] == s[i]);
            } else {
                assert(t[i] == s[i] && t[j] == s[j]);
            }
        }
        lemma_index_of(t, id);
        assert(t[s.len() as int].0 == id);
        assert forall|o: EntityId| o != id implies #[trigger] index_of(t, o) == index_of(s, o) by {
            lemma_index_of(s, o);
            lemma_index_of(t, o);
            if index_of(s, o) >= 0 {
                assert(t[index_of(s, o)] == s[index_of(s, o)]);
            } else if index_of(t, o) >= 0 {
                let j = index_of(t, o);
                assert(j < s.len());
                assert(t[j] == s[j]);
            }
        }
        assert forall|o: EntityId| o != id && before.contains(o) implies #[trigger] after.value_of(o) == before.value_of(o) by {
            lemma_index_of(s, o);
            assert(index_of(t, o) == index_of(s, o));
            assert(t[index_of(s, o)] == s[index_of(s, o)]);
        }
        assert forall|o: EntityId| o != id implies (#[trigger] after.contains(o) <==> before.contains(o)) by {
            lemma_entry_index(s, o);
            lemma_entry_index(t, o);
            assert(index_of(t, o) == index_of(s, o));
        }
    }

    /// After the component of an entity is removed, that entity is no longer found,
    /// and every other entity is found, or not, as before, with the same value; the
    /// group holds one component fewer if the entity had one.
    pub proof fn lemma_get_after_remove(before: Self, after: Self, id: EntityId)
        requires
            before.wf(),
            after.entries() == (if index_of(before.entries(), id) < 0 {
                before.entries()
            } else {
                swap_remove_entry(before.entries(), index_of(before.entries(), id))
            }),
        ensures
            !after.contains(id),
            after.entries().len() == before.entries().len() - (if before.contains(id) { 1int } else { 0int }),
            forall|o: EntityId| o != id ==> (#[trigger] after.contains(o) <==> before.contains(o)),
            forall|o: EntityId| o != id && before.contains(o) ==> #[trigger] after.value_of(o) == before.value_of(o),
    {
        let s = before.entries();
        before.lemma_unique_ids();
        lemma_index_of(s, id);
        let i = index_of(s, id);
        if i < 0 {
            return;
        }
        let n = s.len() as int;
        let t = swap_remove_entry(s, i);
        assert(t.len() == n - 1);
        assert forall|j: int| 0 <= j < t.len() implies #[trigger] t[j] == (if j == i { s[n - 1] } else { s[j] }) by {}
        assert forall|a: int, b: int| 0 <= a < b < t.len() implies t[a].0 != t[b].0 by {
            assert(t[a] == (if a == i { s[n - 1] } else { s[a] }));
            assert(t[b] == (if b == i { s[n - 1] } else { s[b] }));
        }
        lemma_index_of(t, id);
        assert forall|j: int| 0 <= j < t.len() implies t[j].0 != id by {
            assert(t[j] == (if j == i { s[n - 1] } else { s[j] }));
        }
        assert forall|o: EntityId| o != id implies (index_of(t, o) >= 0 <==> index_of(s, o) >= 0)
            && (index_of(s, o) >= 0 ==> t[index_of(t, o)].1 == s[index_of(s, o)].1) by {
            lemma_index_of(s, o);
            lemma_index_of(t, o);
            if index_of(s, o) >= 0 {
                let j = index_of(s, o);
                let jt = if j == n - 1 { i } else { j };
                assert(t[jt] == (if jt == i { s[n - 1] } else { s[jt] }));
                assert(t[jt].0 == o);
            } else if index_of(t, o) >= 0 {
                let j = index_of(t, o);
                assert(t[j] == (if j == i { s[n - 1] } else { s[j] }));
            }
        }
        assert forall|o: EntityId| o != id implies (#[trigger] after.contains(o) <==> before.contains(o)) by {}
        assert forall|o: EntityId| o != id && before.contains(o) implies #[trigger] after.value_of(o) == before.value_of(o) by {}
    }
}

/// A change made to a group: a push of the component of an entity, a removal of the
/// component of an entity, the removal of every component, or a load of components
/// read back in (which pushes each of them, in order).
pub enum GroupOp<T> {
    Push(EntityId, T),
    Remove(EntityId),
    RemoveAll,
    Load(Seq<(EntityId, T)>),
}

/// A change of the group `before` into `after`, as the operation's contract states it:
/// `push` of an entity the group does not hold, `remove`, `remove_all`, or
/// `load_data` of components of distinct entities that the group does not hold.
pub open spec fn group_step<T>(before: ComponentGroup<T>, op: GroupOp<T>, after: ComponentGroup<T>) -> bool {
    &&& after.wf()
    &&& match op {
        GroupOp::Push(id, x) => !before.contains(id) && after.entries() == before.entries().push((id, x)),
        GroupOp::Remove(id) => after.entries() == (if index_of(before.entries(), id) < 0 {
            before.entries()
        } else {
            swap_remove_entry(before.entries(), index_of(before.entries(), id))
        }),
        GroupOp::RemoveAll => after.entries() == Seq::<(EntityId, T)>::empty(),
        GroupOp::Load(added) => unique_ids(added) && (forall|i: int|
            0 <= i < added.len() ==> !before.contains(#[trigger] added[i].0))
            && after.entries() == before.entries() + added,
    }
}

/// The value of the last push of entity `id` among `ops`, unless a removal of it, or
/// of everything, came after that push.
pub open spec fn last_pushed<T>(ops: Seq<GroupOp<T>>, id: EntityId) -> Option<T>
    decreases ops.len(),
{
    if ops.len() == 0 {
        None
    } else {
        match ops.last() {
            GroupOp::Push(e, x) => if e == id {
                Some(x)
            } else {
                last_pushed(ops.drop_last(), id)
            },
            GroupOp::Remove(e) => if e == id {
                None
            } else {
                last_pushed(ops.drop_last(), id)
            },
            GroupOp::RemoveAll => None,
            GroupOp::Load(added) => if has_entry(added, id) {
                Some(entry_value(added, id))
            } else {
                last_pushed(ops.drop_last(), id)
            },
        }
    }
}

/// Appending entries of other entities keeps the ids unique; an entity is then found
/// with its appended value, or, if it was not appended, as before.
proof fn lemma_entries_append<T>(s: Seq<(EntityId, T)>, a: Seq<(EntityId, T)>, o: EntityId)
    requires
        unique_ids(s),
        unique_ids(a),
        forall|i: int| 0 <= i < a.len() ==> !has_entry(s, #[trigger] a[i].0),
    ensures
        unique_ids(s + a),
        has_entry(s + a, o) <==> has_entry(s, o) || has_entry(a, o),
        has_entry(a, o) ==> entry_value(s + a, o) == entry_value(a, o),
        !has_entry(a, o) && has_entry(s, o) ==> entry_value(s + a, o) == entry_value(s, o),
{
    let t = s + a;
    let n = s.len() as int;
    assert forall|i: int, j: int| 0 <= i < j < t.len() implies t[i].0 != t[j].0 by {
        if j < n {
            assert(t[i] == s[i] && t[j] == s[j]);
        } else if i >= n {
            assert(t[i] == a[i - n] && t[j] == a[j - n]);
        } else {
            assert(t[i] == s[i] && t[j] == a[j - n]);
            if s[i].0 == a[j - n].0 {
                assert(has_entry(s, a[j - n].0));
            }
        }
    }
    lemma_entry_index(t, o);
    lemma_entry_index(s, o);
    lemma_entry_index(a, o);
    lemma_index_of(t, o);
    lemma_index_of(s, o);
    lemma_index_of(a, o);
    if has_entry(a, o) {
        let j = index_of(a, o);
        assert(t[n + j] == a[j]);
    } else if has_entry(s, o) {
        let j = index_of(s, o);
        assert(t[j] == s[j]);
    } else if has_entry(t, o) {
        let k = index_of(t, o);
        if k < n {
            assert(t[k] == s[k]);
        } else {
            assert(t[k] == a[k - n]);
        }
    }
}

/// What a group holds is its history: along the groups `gs`, from an empty group,
/// each made from the one before by the change `ops[k]`, the last group holds a
/// component of an entity exactly when some push of that entity was made and no
/// removal of it, nor of everything, followed; its value is the value of that push.
/// (`get` gives `Some` of the value held, else `None`.)
pub proof fn lemma_group_history<T>(gs: Seq<ComponentGroup<T>>, ops: Seq<GroupOp<T>>, id: EntityId)
    requires
        gs.len() == ops.len() + 1,
        gs[0].wf(),
        gs[0].entries() == Seq::<(EntityId, T)>::empty(),
        forall|k: int| 0 <= k < ops.len() ==> group_step(gs[k], #[trigger] ops[k], gs[k + 1]),
    ensures
        gs.last().contains(id) <==> last_pushed(ops, id) is Some,
        gs.last().contains(id) ==> gs.last().value_of(id) == last_pushed(ops, id)->0,
    decreases ops.len(),
{
    let n = ops.len() as int;
    if n == 0 {
        assert(!gs[0].contains(id));
        return;
    }
    let before = gs[n - 1];
    let after = gs[n];
    assert(gs.drop_last().len() == ops.drop_last().len() + 1);
    assert forall|k: int| 0 <= k < ops.drop_last().len() implies group_step(
        gs.drop_last()[k],
        #[trigger] ops.drop_last()[k],
        gs.drop_last()[k + 1],
    ) by {
        assert(group_step(gs[k], ops[k], gs[k + 1]));
    }
    lemma_group_history(gs.drop_last(), ops.drop_last(), id);
    assert(gs.drop_last().last() == before);
    assert(group_step(before, ops[n - 1], after));
    assert(before.wf()) by {
        if n > 1 {
            assert(group_step(gs[n - 2], ops[n - 2], gs[n - 1]));
        }
    }
    match ops[n - 1] {
        GroupOp::Push(e, x) => {
            ComponentGroup::lemma_get_after_push(before, after, e, x);
        },
        GroupOp::Remove(e) => {
            ComponentGroup::lemma_get_after_remove(before, after, e);
        },
        GroupOp::RemoveAll => {
            assert(!after.contains(id));
        },
        GroupOp::Load(added) => {
            before.lemma_unique_ids();
            lemma_entries_append(before.entries(), added, id);
        },
    }
}

/// An iterator over the components of a group, in storage order.
pub struct Iter<'a, T> {
    components: &'a Vec<Component<T>>,
    indices: &'a HashMap<EntityId, ComponentIndex>,
    pos: usize,
}

impl<'a, T> Iter<'a, T> {
    /// The entries of the group.
    pub closed spec fn entries(&self) -> Seq<(EntityId, T)> {
        self.components@.map_values(|c: Component<T>| component_entry(c))
    }

    /// How many entries were passed.
    pub closed spec fn pos(&self) -> int {
        self.pos as int
    }

    pub proof fn lemma_pos(&self)
        requires
            self.wf(),
        ensures
            0 <= self.pos() <= self.entries().len(),
    {
    }

    pub closed spec fn wf(&self) -> bool {
        let c = self.components@;
        &&& self.pos <= c.len()
        &&& forall|i: int|
            0 <= i < c.len() ==> self.indices@.contains_key(#[trigger] c[i].spec_entity_id())
                && self.indices@[c[i].spec_entity_id()] == i
    }

    /// The next entry: its entity and a reference to its value.
    pub fn next(&mut self) -> (r: Option<(EntityId, &'a T)>)
        requires
            old(self).wf(),
        ensures
            final(self).wf(),
            final(self).entries() == old(self).entries(),
            0 <= final(self).pos() <= final(self).entries().len(),
            old(self).pos() < old(self).entries().len() ==> final(self).pos() == old(self).pos() + 1
                && (r matches Some((id, v)) && id == old(self).entries()[old(self).pos()].0 && *v
                == old(self).entries()[old(self).pos()].1),
            old(self).pos() >= old(self).entries().len() ==> final(self).pos() == old(self).pos()
                && r is None,
    {
        let ghost start = self.pos;
        while self.pos < self.components.len()
            invariant
                self.wf(),
                self.components == old(self).components,
                self.indices == old(self).indices,
                self.pos == start,
                start == old(self).pos,
            decreases self.components.len() - self.pos,
        {
            let index = self.pos;
            let next: &'a Component<T> = &self.components[index];
            self.pos = self.pos + 1;
            let id = next.entity_id();
            let live = match self.indices.get(&id) {
                Some(exist_index) => *exist_index == index,
                None => false,
            };
            if live {
                return Some((id, next.inner()));
            }
            assert(false);
        }
        None
    }

    /// Pairs each entry with what `other` holds for the same entity, skipping the
    /// entities that `other` does not hold.
    pub fn zip_entities<'b, U>(self, other: &'b U) -> (r: ZipEntityIter<'a, 'b, T, U>) where
        U: ZipEntityBase,
        requires
            self.wf(),
            other.zip_wf(),
        ensures
            r.base() == self,
            r.other() == other,
    {
        ZipEntityIter::new(self, other)
    }
}

/// An iterator over the components of a group, in storage order, with mutable
/// references to their values.
pub struct IterMut<'a, T> {
    /// The components not passed yet.
    pub rest: &'a mut [Component<T>],
    /// The index map of the group.
    pub indices: &'a HashMap<EntityId, ComponentIndex>,
    /// How many components were passed.
    pub pos: usize,
}

impl<'a, T> IterMut<'a, T> {
    /// The entries not passed yet.
    pub open spec fn rest(&self) -> Seq<(EntityId, T)> {
        self.rest@.map_values(|c: Component<T>| component_entry(c))
    }

    /// How many entries were passed.
    pub open spec fn pos(&self) -> int {
        self.pos as int
    }

    pub closed spec fn wf(&self) -> bool {
        let c = self.rest@;
        &&& self.pos + c.len() <= usize::MAX
        &&& forall|i: int|
            0 <= i < c.len() ==> self.indices@.contains_key(#[trigger] c[i].spec_entity_id())
                && self.indices@[c[i].spec_entity_id()] == self.pos + i
    }

    /// The next entry: its entity and a mutable reference to its value. What is
    /// written through the reference becomes the value of that component: the
    /// components left once the iterator is done are this one, with its entity and
    /// the value written, followed by those left after it.
    pub fn next(&mut self) -> (r: Option<(EntityId, &'a mut T)>)
        requires
            old(self).wf(),
        ensures
            final(self).wf(),
            final(self).indices == old(self).indices,
            old(self).rest().len() > 0 ==> final(self).pos() == old(self).pos() + 1
                && final(self).rest() == old(self).rest().drop_first()
                && (r matches Some((id, v)) && id == old(self).rest()[0].0 && *v == old(self).rest()[0].1
                && (*final(old(self).rest))@.len() > 0
                && (*final(old(self).rest))@[0].spec_entity_id() == id
                && (*final(old(self).rest))@[0].spec_inner() == *final(v)
                && (*final(old(self).rest))@.drop_first() == (*final(final(self).rest))@),
            old(self).rest().len() == 0 ==> final(self).pos() == old(self).pos()
                && final(self).rest() == old(self).rest() && r is None
                && (*final(old(self).rest))@ == (*final(final(self).rest))@,
    {
        if self.rest.len() == 0 {
            return None;
        }
        let mut taken: &'a mut [Component<T>] = &mut [];
        std::mem::swap(&mut self.rest, &mut taken);
        let (head, tail) = taken.split_at_mut(1);
        self.rest = tail;
        let index = self.pos;
        self.pos = self.pos + 1;
        let next: &'a mut Component<T> = &mut head[0];
        let id = next.entity_id();
        assert(self.rest() =~= old(self).rest().drop_first());
        Some((id, next.inner_mut()))
    }

    /// Pairs each entry with what `other` holds for the same entity, skipping the
    /// entities that `other` does not hold.
    pub fn zip_entities_mut<'b, U>(self, other: &'b U) -> (r: ZipEntityIterMut<'a, 'b, T, U>) where
        U: ZipEntityBase,
        requires
            self.wf(),
            other.zip_wf(),
        ensures
            r.base() == self,
            r.other() == other,
    {
        ZipEntityIterMut::new(self, other)
    }
}

} // verus!
