use vstd::prelude::*;

verus! {

/// Identifier of an entity.
pub type EntityId = u64;

/// A value attached to one entity.
#[derive(Debug, Clone)]
pub struct Component<T> {
    pub(crate) entity_id: EntityId,
    pub(crate) inner: T,
}

impl<T> Component<T> {
    /// The entity that owns this component.
    pub closed spec fn spec_entity_id(&self) -> EntityId {
        self.entity_id
    }

    /// The value carried by this component.
    pub closed spec fn spec_inner(&self) -> T {
        self.inner
    }

    pub fn new(entity_id: EntityId, inner: T) -> (r: Self)
        ensures
            r.spec_entity_id() == entity_id,
            r.spec_inner() == inner,
    {
        Self { entity_id, inner }
    }

    pub fn entity_id(&self) -> (r: EntityId)
        ensures
            r == self.spec_entity_id(),
    {
        self.entity_id
    }

    pub fn inner(&self) -> (r: &T)
        ensures
            *r == self.spec_inner(),
    {
        &self.inner
    }

    pub fn inner_mut(&mut self) -> (r: &mut T)
        ensures
            *r == old(self).spec_inner(),
            final(self).spec_entity_id() == old(self).spec_entity_id(),
            final(self).spec_inner() == *final(r),
    {
        &mut self.inner
    }

    pub fn into_inner(self) -> (r: T)
        ensures
            r == self.spec_inner(),
    {
        self.inner
    }
}

} // verus!
