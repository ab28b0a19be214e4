//! Values kept under numeric ids.
use vstd::prelude::*;
use std::collections::HashMap;

verus! {

broadcast use vstd::std_specs::hash::group_hash_axioms;

pub type RegistryId = u64;

/// Values kept under numeric ids.
pub struct Storage<T> {
    data: HashMap<RegistryId, T>,
}

/// `HashMap::get_mut`.
///
/// Trusted: it gives a reference to the value under `k` when there is one, and what
/// is written through it becomes that value; with no value under `k` it gives
/// nothing and leaves the map as it was.
#[verifier::external_body]
fn map_get_mut<'a, T>(m: &'a mut HashMap<RegistryId, T>, k: RegistryId) -> (r: Option<&'a mut T>)
    ensures
        match r {
            Some(v) => old(m)@.contains_key(k) && *v == old(m)@[k] && final(m)@ == old(m)@.insert(k, *final(v)),
            None => !old(m)@.contains_key(k) && final(m)@ == old(m)@,
        },
{
    m.get_mut(&k)
}

impl<T> View for Storage<T> {
    type V = Map<RegistryId, T>;

    closed spec fn view(&self) -> Map<RegistryId, T> {
        self.data@
    }
}

impl<T> Storage<T> {
    /// An empty storage.
    pub fn new() -> (r: Self)
        ensures
            r@ == Map::<RegistryId, T>::empty(),
    {
        Storage { data: HashMap::new() }
    }

    /// Whether a value is kept under `id`.
    pub fn contains(&self, id: RegistryId) -> (r: bool)
        ensures
            r == self@.contains_key(id),
    {
        self.data.contains_key(&id)
    }

    /// The value under `id`, which must be there.
    pub fn read(&self, id: RegistryId) -> (r: &T)
        requires
            self@.contains_key(id),
        ensures
            *r == self@[id],
    {
        self.data.get(&id).unwrap()
    }

    /// A mutable reference to the value under `id`, which must be there; what is
    /// written through it becomes the value.
    pub fn write(&mut self, id: RegistryId) -> (r: &mut T)
        requires
            old(self)@.contains_key(id),
        ensures
            *r == old(self)@[id],
            final(self)@ == old(self)@.insert(id, *final(r)),
    {
        map_get_mut(&mut self.data, id).unwrap()
    }

    /// Keeps `value` under `id`, in place of any value there.
    pub fn register(&mut self, id: RegistryId, value: T)
        ensures
            final(self)@ == old(self)@.insert(id, value),
    {
        self.data.insert(id, value);
    }

    /// Takes the value under `id` out, if there is one.
    pub fn unregister(&mut self, id: RegistryId) -> (r: Option<T>)
        ensures
            final(self)@ == old(self)@.remove(id),
            r == (if old(self)@.contains_key(id) {
                Some(old(self)@[id])
            } else {
                None
            }),
    {
        self.data.remove(&id)
    }
}

} // verus!
