use vstd::prelude::*;
use vstd::std_specs::cmp::PartialEqSpec;
use std::collections::HashMap;
use std::collections::HashSet;
use std::collections::hash_map::Entry;
use std::marker::PhantomData;
use crate::id::{UId, IdGenerator, generate_id, successor};

verus! {

/// Identifier of a resource in the pools of the 2D application.
pub type UID = UId;

broadcast use vstd::std_specs::hash::group_hash_axioms;

/// A typed handle to a resource stored in a `ResourcePool<T>` of the 2D application.
pub struct ResourceId<T> {
    pub id: UID,
    pub _phantom: PhantomData<T>,
}

impl<T> ResourceId<T> {
    /// A fresh handle carrying the next application-wide identifier.
    fn new(ids: &mut IdGenerator) -> (rid: Self)
        ensures
            rid.id == old(ids)@,
            final(ids)@ == successor(old(ids)@),
    {
        ResourceId { id: generate_id(ids), _phantom: PhantomData }
    }

    /// The handle for an identifier chosen by the caller.
    pub fn format(uid: UID) -> (rid: Self)
        ensures
            rid.id == uid,
    {
        ResourceId { id: uid, _phantom: PhantomData }
    }
}

impl<T> Clone for ResourceId<T> {
    fn clone(&self) -> (r: Self)
        ensures
            r == *self,
    {
        ResourceId { id: self.id, _phantom: PhantomData }
    }
}

impl<T> Copy for ResourceId<T> {

}

impl<T> PartialEq for ResourceId<T> {
    fn eq(&self, other: &Self) -> (r: bool)
        ensures
            r == (self.id == other.id),
    {
        self.id == other.id
    }
}

impl<T> vstd::std_specs::cmp::PartialEqSpecImpl for ResourceId<T> {
    open spec fn obeys_eq_spec() -> bool {
        true
    }

    open spec fn eq_spec(&self, other: &Self) -> bool {
        self.id == other.id
    }
}

impl<T> Eq for ResourceId<T> {

}

/// Two handles are equal exactly when their identifiers are equal; equality of handles is
/// therefore symmetric and ignores everything but the identifier.
pub proof fn lemma_handle_eq_by_id<T>(a: ResourceId<T>, b: ResourceId<T>)
    ensures
        a.eq_spec(&b) <==> a.id == b.id,
        a.eq_spec(&b) <==> b.eq_spec(&a),
        a.eq_spec(&a),
{
}

/// A pool of resources of one type, keyed by identifier; besides fresh identifiers it
/// also accepts identifiers chosen by the caller (`set`).
pub struct ResourcePool<T> {
    resources: HashMap<UId, T>,
    resource_id_set: HashSet<UId>,
}

impl<T> View for ResourcePool<T> {
    type V = Map<UId, T>;

    closed spec fn view(&self) -> Map<UId, T> {
        self.resources@
    }
}

impl<T> ResourcePool<T> {
    /// The set of registered identifiers is exactly the set of stored keys.
    pub closed spec fn wf(&self) -> bool {
        self.resource_id_set@ == self.resources@.dom()
    }

    /// An empty pool.
    pub fn new() -> (pool: Self)
        ensures
            pool.wf(),
            pool@ == Map::<UId, T>::empty(),
    {
        ResourcePool { resources: HashMap::new(), resource_id_set: HashSet::new() }
    }

    /// Stores `resource` under a fresh identifier and returns its handle.
    pub fn add(&mut self, ids: &mut IdGenerator, resource: T) -> (rid: ResourceId<T>)
        requires
            old(self).wf(),
        ensures
            final(self).wf(),
            rid.id == old(ids)@,
            final(ids)@ == successor(old(ids)@),
            final(self)@ == old(self)@.insert(rid.id, resource),
    {
        let rid = ResourceId::new(ids);
        self.resources.insert(rid.id, resource);
        self.resource_id_set.insert(rid.id);
        rid
    }

    /// Stores `resource` under the identifier `uid` chosen by the caller, replacing what was
    /// stored there, and returns its handle.
    pub fn set(&mut self, uid: UID, resource: T) -> (rid: ResourceId<T>)
        requires
            old(self).wf(),
        ensures
            final(self).wf(),
            rid.id == uid,
            final(self)@ == old(self)@.insert(uid, resource),
    {
        let rid = ResourceId::format(uid);
        self.resources.insert(rid.id, resource);
        self.resource_id_set.insert(rid.id);
        rid
    }

    /// The resource stored under the handle's identifier, if any.
    pub fn borrow(&self, r_id: &ResourceId<T>) -> (r: Option<&T>)
        ensures
            match r {
                Some(v) => self@.contains_key(r_id.id) && *v == self@[r_id.id],
                None => !self@.contains_key(r_id.id),
            },
    {
        self.resources.get(&r_id.id)
    }

    /// Mutable access to the resource stored under the handle's identifier, if any.
    pub fn borrow_mut(&mut self, r_id: &ResourceId<T>) -> (r: Option<&mut T>)
        requires
            old(self).wf(),
        ensures
            final(self)@.dom() == old(self)@.dom(),
            final(self).wf(),
            match r {
                Some(v) => {
                    &&& old(self)@.contains_key(r_id.id)
                    &&& *v == old(self)@[r_id.id]
                    &&& final(self)@ == old(self)@.insert(r_id.id, *final(v))
                },
                None => {
                    &&& !old(self)@.contains_key(r_id.id)
                    &&& final(self)@ == old(self)@
                },
            },
    {
        proof {
            let m = old(self)@;
            assert forall|v: T| m.contains_key(r_id.id) implies #[trigger] m.insert(
                r_id.id,
                v,
            ).dom() == m.dom() by {
                assert(m.insert(r_id.id, v).dom() =~= m.dom());
            }
        }
        match self.resources.entry(r_id.id) {
            Entry::Occupied(e) => Some(e.into_mut()),
            Entry::Vacant(_) => None,
        }
    }
}

} // verus!
