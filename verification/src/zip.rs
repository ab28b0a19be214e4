//! Joining the components of several groups by entity.
use vstd::prelude::*;
use crate::component::EntityId;
use crate::group::{ComponentGroup, Iter, IterMut, entries_of};

verus! {

/// Something that holds, for some entities, an item to pair with.
pub trait ZipEntityBase {
    type Item;

    /// Whether the value can answer `zip`.
    spec fn zip_wf(&self) -> bool;

    /// What is held for `entity_id`.
    spec fn spec_zip(&self, entity_id: EntityId) -> Option<Self::Item>;

    fn zip(&self, entity_id: EntityId) -> (r: Option<Self::Item>)
        requires
            self.zip_wf(),
        ensures
            r == self.spec_zip(entity_id),
    ;
}

/// Index of the first entry at or after `i` that `other` holds an item for; the
/// number of entries when there is none.
pub open spec fn zip_next_from<T, U: ZipEntityBase>(e: Seq<(EntityId, T)>, other: U, i: int) -> int
    decreases e.len() - i,
{
    if i < 0 || i >= e.len() {
        e.len() as int
    } else if other.spec_zip(e[i].0) is Some {
        i
    } else {
        zip_next_from(e, other, i + 1)
    }
}

proof fn lemma_zip_next_from<T, U: ZipEntityBase>(e: Seq<(EntityId, T)>, other: U, i: int)
    requires
        0 <= i <= e.len(),
    ensures
        i <= zip_next_from(e, other, i) <= e.len(),
        zip_next_from(e, other, i) < e.len() ==> other.spec_zip(e[zip_next_from(e, other, i)].0) is Some,
    decreases e.len() - i,
{
    if i < e.len() && other.spec_zip(e[i].0) is None {
        lemma_zip_next_from(e, other, i + 1);
    }
}

/// What a join of the entries `e`, from position `i` on, with `other` hands out, in
/// order: each entry that `other` holds an item for, with that item.
pub open spec fn zip_from<T, U: ZipEntityBase>(e: Seq<(EntityId, T)>, other: U, i: int) -> Seq<(EntityId, T, U::Item)>
    decreases e.len() - i,
{
    if i < 0 || i >= e.len() {
        Seq::empty()
    } else {
        match other.spec_zip(e[i].0) {
            Some(item) => seq![(e[i].0, e[i].1, item)] + zip_from(e, other, i + 1),
            None => zip_from(e, other, i + 1),
        }
    }
}

proof fn lemma_zip_from_skip<T, U: ZipEntityBase>(e: Seq<(EntityId, T)>, other: U, i: int)
    requires
        0 <= i <= e.len(),
    ensures
        zip_from(e, other, i) == zip_from(e, other, zip_next_from(e, other, i)),
    decreases e.len() - i,
{
    if i < e.len() && other.spec_zip(e[i].0) is None {
        lemma_zip_from_skip(e, other, i + 1);
    }
}

/// A join hands out exactly the triples `(id, a, b)` such that `(id, a)` is one of
/// the entries passed and `other` holds `b` for `id`.
pub proof fn lemma_zip_from_contains<T, U: ZipEntityBase>(
    e: Seq<(EntityId, T)>,
    other: U,
    i: int,
    x: (EntityId, T, U::Item),
)
    requires
        0 <= i,
    ensures
        zip_from(e, other, i).contains(x) <==> exists|j: int|
            i <= j < e.len() && #[trigger] e[j] == (x.0, x.1) && other.spec_zip(x.0) == Some(x.2),
    decreases e.len() - i,
{
    if i < e.len() {
        lemma_zip_from_contains(e, other, i + 1, x);
        let rest = zip_from(e, other, i + 1);
        match other.spec_zip(e[i].0) {
            Some(item) => {
                let head = (e[i].0, e[i].1, item);
                let z = seq![head] + rest;
                assert(z[0] == head);
                if z.contains(x) {
                    let k = choose|k: int| 0 <= k < z.len() && z[k] == x;
                    if k > 0 {
                        assert(rest[k - 1] == x);
                    }
                }
                if rest.contains(x) {
                    let k = choose|k: int| 0 <= k < rest.len() && rest[k] == x;
                    assert(z[k + 1] == x);
                }
            },
            None => {},
        }
    }
}

/// Pairs the entries of a group with what another value holds for the same entity.
pub struct ZipEntityIter<'a, 'b, T, U> where U: ZipEntityBase {
    base: Iter<'a, T>,
    other: &'b U,
}

impl<'a, 'b, T, U> ZipEntityIter<'a, 'b, T, U> where U: ZipEntityBase {
    pub closed spec fn base(&self) -> Iter<'a, T> {
        self.base
    }

    pub closed spec fn other(&self) -> &'b U {
        self.other
    }

    pub fn new(base: Iter<'a, T>, other: &'b U) -> (r: Self)
        ensures
            r.base() == base,
            r.other() == other,
    {
        ZipEntityIter { base, other }
    }

    /// The next entry that `other` holds an item for, with that item.
    pub fn next(&mut self) -> (r: Option<(EntityId, &'a T, U::Item)>)
        requires
            old(self).base().wf(),
            old(self).other().zip_wf(),
        ensures
            ({
                let e = old(self).base().entries();
                let j = zip_next_from(e, *old(self).other(), old(self).base().pos());
                &&& final(self).base().wf()
                &&& final(self).other() == old(self).other()
                &&& final(self).base().entries() == e
                &&& j < e.len() ==> final(self).base().pos() == j + 1 && (r matches Some((id, v, item)) && id
                    == e[j].0 && *v == e[j].1 && Some(item) == old(self).other().spec_zip(id))
                &&& j >= e.len() ==> final(self).base().pos() == e.len() && r is None
                &&& zip_from(e, *old(self).other(), old(self).base().pos()) == match r {
                    Some((id, v, item)) => seq![(id, *v, item)] + zip_from(e, *old(self).other(), final(self).base().pos()),
                    None => Seq::empty(),
                }
            }),
    {
        let ghost e = self.base.entries();
        let ghost start = self.base.pos();
        proof {
            self.base.lemma_pos();
            lemma_zip_next_from(e, *self.other, start);
            lemma_zip_from_skip(e, *self.other, start);
        }
        loop
            invariant
                self.base.wf(),
                self.other == old(self).other,
                self.other.zip_wf(),
                self.base.entries() == e,
                0 <= start <= self.base.pos() <= e.len(),
                e == old(self).base.entries(),
                start == old(self).base.pos(),
                zip_next_from(e, *self.other, self.base.pos()) == zip_next_from(e, *self.other, start),
                zip_from(e, *self.other, start) == zip_from(e, *self.other, zip_next_from(e, *self.other, start)),
            decreases e.len() - self.base.pos(),
        {
            let ghost p = self.base.pos();
            match self.base.next() {
                Some((entity_id, base)) => {
                    assert(p < e.len());
                    assert(entity_id == e[p].0);
                    if let Some(other_item) = self.other.zip(entity_id) {
                        assert(self.other.spec_zip(entity_id) is Some);
                        assert(zip_next_from(e, *self.other, p) == p);
                        assert(zip_from(e, *self.other, p) == seq![(e[p].0, e[p].1, other_item)] + zip_from(
                            e,
                            *self.other,
                            p + 1,
                        ));
                        return Some((entity_id, base, other_item));
                    }
                    assert(zip_next_from(e, *self.other, p) == zip_next_from(e, *self.other, p + 1));
                },
                None => {
                    assert(zip_next_from(e, *self.other, p) == e.len());
                    assert(zip_from(e, *self.other, e.len() as int) == Seq::<(EntityId, T, U::Item)>::empty());
                    return None;
                },
            }
        }
    }
}

/// Pairs the entries of a group, with mutable references, with what another value
/// holds for the same entity.
pub struct ZipEntityIterMut<'a, 'b, T, U> where U: ZipEntityBase {
    /// The entries of the group, with mutable references.
    pub base: IterMut<'a, T>,
    /// What the entries are paired with.
    pub other: &'b U,
}

impl<'a, 'b, T, U> ZipEntityIterMut<'a, 'b, T, U> where U: ZipEntityBase {
    pub open spec fn base(&self) -> IterMut<'a, T> {
        self.base
    }

    pub open spec fn other(&self) -> &'b U {
        self.other
    }

    pub fn new(base: IterMut<'a, T>, other: &'b U) -> (r: Self)
        ensures
            r.base() == base,
            r.other() == other,
    {
        ZipEntityIterMut { base, other }
    }

    /// The next entry that `other` holds an item for, with that item. The entries
    /// passed over on the way keep their values; what is written through the
    /// reference handed out becomes the value of that entry.
    pub fn next(&mut self) -> (r: Option<(EntityId, &'a mut T, U::Item)>)
        requires
            old(self).base().wf(),
            old(self).other().zip_wf(),
        ensures
            ({
                let e = old(self).base().rest();
                let j = zip_next_from(e, *old(self).other(), 0);
                let f0 = (*final(old(self).base.rest))@;
                let f1 = (*final(final(self).base.rest))@;
                &&& final(self).base().wf()
                &&& final(self).other() == old(self).other()
                &&& j < e.len() ==> final(self).base().rest() == e.skip(j + 1) && (r matches Some((id, v, item)) && id
                    == e[j].0 && *v == e[j].1 && Some(item) == old(self).other().spec_zip(id)
                    && f0.len() == j + 1 + f1.len() && entries_of(f0.take(j)) == e.take(j)
                    && f0[j].spec_entity_id() == id && f0[j].spec_inner() == *final(v) && f0.skip(j + 1) == f1)
                &&& j >= e.len() ==> final(self).base().rest().len() == 0 && r is None && f0.len() == e.len()
                    + f1.len() && entries_of(f0.take(e.len() as int)) == e && f0.skip(e.len() as int) == f1
            }),
    {
        let ghost e = self.base.rest();
        let ghost f0 = (*final(self.base.rest))@;
        proof {
            lemma_zip_next_from(e, *self.other, 0);
        }
        let ghost mut k: int = 0;
        loop
            invariant
                self.base.wf(),
                self.other == old(self).other,
                self.other.zip_wf(),
                0 <= k <= e.len(),
                e == old(self).base.rest(),
                f0 == (*final(old(self).base.rest))@,
                self.base.rest() == e.skip(k),
                zip_next_from(e, *self.other, k) == zip_next_from(e, *self.other, 0),
                f0.len() == k + (*final(self.base.rest))@.len(),
                entries_of(f0.take(k)) == e.take(k),
                f0.skip(k) == (*final(self.base.rest))@,
            decreases e.len() - k,
        {
            let ghost fb = (*final(self.base.rest))@;
            match self.base.next() {
                Some((entity_id, base)) => {
                    let ghost k0 = k;
                    proof {
                        assert(e.skip(k)[0] == e[k]);
                        assert(e.skip(k).drop_first() =~= e.skip(k + 1));
                        k = k + 1;
                    }
                    if let Some(other_item) = self.other.zip(entity_id) {
                        assert(zip_next_from(e, *self.other, k0) == k0);
                        assert(f0[k0] == fb[0]);
                        assert(f0.skip(k0 + 1) =~= fb.drop_first());
                        return Some((entity_id, base, other_item));
                    }
                    assert(zip_next_from(e, *self.other, k0) == zip_next_from(e, *self.other, k0 + 1));
                    assert(f0[k0] == fb[0]);
                    assert(f0.skip(k0 + 1) =~= fb.drop_first());
                    assert(entries_of(f0.take(k0 + 1)) =~= e.take(k0 + 1)) by {
                        assert(f0.take(k0 + 1) =~= f0.take(k0).push(f0[k0]));
                        assert(e.take(k0 + 1) =~= e.take(k0).push(e[k0]));
                    }
                },
                None => {
                    assert(k == e.len());
                    assert(zip_next_from(e, *self.other, k) == e.len());
                    return None;
                },
            }
        }
    }
}

} // verus!

verus! {

/// Joins with one group: the item is a reference to the entity's value.
pub struct ZipEntity1<'a, T> {
    group: &'a ComponentGroup<T>,
}

impl<'a, T> ZipEntity1<'a, T> {
    pub closed spec fn group(&self) -> &'a ComponentGroup<T> {
        self.group
    }

    pub fn new(group: &'a ComponentGroup<T>) -> (r: ZipEntity1<'a, T>)
        ensures
            r.group() == group,
    {
        ZipEntity1 { group }
    }
}

impl<'a, T> ZipEntityBase for ZipEntity1<'a, T> {
    type Item = &'a T;

    open spec fn zip_wf(&self) -> bool {
        self.group().wf()
    }

    open spec fn spec_zip(&self, entity_id: EntityId) -> Option<&'a T> {
        if self.group().contains(entity_id) {
            Some(&self.group().value_of(entity_id))
        } else {
            None
        }
    }

    fn zip(&self, entity_id: EntityId) -> (r: Option<&'a T>) {
        self.group.get(entity_id)
    }
}

/// Joins with two groups: the item is a pair of references to the entity's values.
pub struct ZipEntity2<'a, 'b, T1, T2> {
    groups: (&'a ComponentGroup<T1>, &'b ComponentGroup<T2>),
}

impl<'a, 'b, T1, T2> ZipEntity2<'a, 'b, T1, T2> {
    pub closed spec fn groups(&self) -> (&'a ComponentGroup<T1>, &'b ComponentGroup<T2>) {
        self.groups
    }

    pub fn new(group1: &'a ComponentGroup<T1>, group2: &'b ComponentGroup<T2>) -> (r: ZipEntity2<'a, 'b, T1, T2>)
        ensures
            r.groups() == (group1, group2),
    {
        ZipEntity2 { groups: (group1, group2) }
    }
}

impl<'a, 'b, T1, T2> ZipEntityBase for ZipEntity2<'a, 'b, T1, T2> {
    type Item = (&'a T1, &'b T2);

    open spec fn zip_wf(&self) -> bool {
        self.groups().0.wf() && self.groups().1.wf()
    }

    open spec fn spec_zip(&self, entity_id: EntityId) -> Option<(&'a T1, &'b T2)> {
        if self.groups().0.contains(entity_id) && self.groups().1.contains(entity_id) {
            Some((&self.groups().0.value_of(entity_id), &self.groups().1.value_of(entity_id)))
        } else {
            None
        }
    }

    fn zip(&self, entity_id: EntityId) -> (r: Option<(&'a T1, &'b T2)>) {
        let group1 = self.groups.0.get(entity_id)?;
        let group2 = self.groups.1.get(entity_id)?;
        Some((group1, group2))
    }
}

} // verus!
