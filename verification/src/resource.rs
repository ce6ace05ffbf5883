use vstd::prelude::*;
use vstd::std_specs::cmp::PartialEqSpec;
use std::collections::HashMap;
use std::collections::HashSet;
use std::collections::hash_map::Entry;
use std::marker::PhantomData;
use crate::id::{UId, IdGenerator, generate_id, successor};

verus! {

broadcast use vstd::std_specs::hash::group_hash_axioms;

/// A typed handle to a resource stored in a `ResourcePool<T>`.
pub struct ResourceId<T> {
    pub id: UId,
    pub is_disposed: bool,
    pub _phantom: PhantomData<T>,
}

impl<T> ResourceId<T> {
    /// A fresh handle carrying the next application-wide identifier.
    fn new(ids: &mut IdGenerator) -> (rid: Self)
        ensures
            rid.id == old(ids)@,
            !rid.is_disposed,
            final(ids)@ == successor(old(ids)@),
    {
        ResourceId { id: generate_id(ids), is_disposed: false, _phantom: PhantomData }
    }
}

impl<T> Clone for ResourceId<T> {
    fn clone(&self) -> (r: Self)
        ensures
            r == *self,
    {
        ResourceId { id: self.id, is_disposed: self.is_disposed, _phantom: PhantomData }
    }
}

impl<T> Copy for ResourceId<T> {

}

impl<T> PartialEq for ResourceId<T> {
    fn eq(&self, other: &Self) -> (r: bool)
        ensures
            r == (self.id == other.id),
    {
        self.id == other.id
    }
}

impl<T> vstd::std_specs::cmp::PartialEqSpecImpl for ResourceId<T> {
    open spec fn obeys_eq_spec() -> bool {
        true
    }

    open spec fn eq_spec(&self, other: &Self) -> bool {
        self.id == other.id
    }
}

impl<T> Eq for ResourceId<T> {

}

/// Two handles are equal exactly when their identifiers are equal; equality of handles is
/// therefore symmetric and ignores everything but the identifier.
pub proof fn lemma_handle_eq_by_id<T>(a: ResourceId<T>, b: ResourceId<T>)
    ensures
        a.eq_spec(&b) <==> a.id == b.id,
        a.eq_spec(&b) <==> b.eq_spec(&a),
        a.eq_spec(&a),
{
}

/// A pool of resources of one type, keyed by identifier.
pub struct ResourcePool<T> {
    resources: HashMap<UId, T>,
    resource_id_set: HashSet<UId>,
}

impl<T> View for ResourcePool<T> {
    type V = Map<UId, T>;

    closed spec fn view(&self) -> Map<UId, T> {
        self.resources@
    }
}

impl<T> ResourcePool<T> {
    /// The set of registered identifiers is exactly the set of stored keys.
    pub closed spec fn wf(&self) -> bool {
        self.resource_id_set@ == self.resources@.dom()
    }

    /// An empty pool.
    pub fn new() -> (pool: Self)
        ensures
            pool.wf(),
            pool@ == Map::<UId, T>::empty(),
    {
        ResourcePool { resources: HashMap::new(), resource_id_set: HashSet::new() }
    }

    /// Stores `resource` under a fresh identifier and returns its handle.
    pub fn add(&mut self, ids: &mut IdGenerator, resource: T) -> (rid: ResourceId<T>)
        requires
            old(self).wf(),
        ensures
            final(self).wf(),
            rid.id == old(ids)@,
            !rid.is_disposed,
            final(ids)@ == successor(old(ids)@),
            final(self)@ == old(self)@.insert(rid.id, resource),
    {
        let rid = ResourceId::new(ids);
        self.resources.insert(rid.id, resource);
        self.resource_id_set.insert(rid.id);
        rid
    }

    /// The resource stored under the handle's identifier, if any.
    pub fn borrow(&self, r_id: &ResourceId<T>) -> (r: Option<&T>)
        ensures
            match r {
                Some(v) => self@.contains_key(r_id.id) && *v == self@[r_id.id],
                None => !self@.contains_key(r_id.id),
            },
    {
        self.resources.get(&r_id.id)
    }

    /// Mutable access to the resource stored under the handle's identifier, if any.
    pub fn borrow_mut(&mut self, r_id: &ResourceId<T>) -> (r: Option<&mut T>)
        requires
            old(self).wf(),
        ensures
            final(self)@.dom() == old(self)@.dom(),
            final(self).wf(),
            match r {
                Some(v) => {
                    &&& old(self)@.contains_key(r_id.id)
                    &&& *v == old(self)@[r_id.id]
                    &&& final(self)@ == old(self)@.insert(r_id.id, *final(v))
                },
                None => {
                    &&& !old(self)@.contains_key(r_id.id)
                    &&& final(self)@ == old(self)@
                },
            },
    {
        proof {
            let m = old(self)@;
            assert forall|v: T| m.contains_key(r_id.id) implies #[trigger] m.insert(
                r_id.id,
                v,
            ).dom() == m.dom() by {
                assert(m.insert(r_id.id, v).dom() =~= m.dom());
            }
        }
        match self.resources.entry(r_id.id) {
            Entry::Occupied(e) => Some(e.into_mut()),
            Entry::Vacant(_) => None,
        }
    }
}

/// Key of the resource type that a pool of the registry holds.
pub type TypeKey = u64;

/// The resource types that the registry keeps a pool for.
#[derive(Clone, Copy, PartialEq, Eq, Structural)]
pub enum ResourceKind {
    AttributeF32,
    AttributeF64,
    AttributeUsize,
    Geometry,
    Mesh,
    Camera,
}

/// The registry key of each resource kind; distinct kinds have distinct keys.
pub open spec fn kind_key(kind: ResourceKind) -> TypeKey {
    match kind {
        ResourceKind::AttributeF32 => 0,
        ResourceKind::AttributeF64 => 1,
        ResourceKind::AttributeUsize => 2,
        ResourceKind::Geometry => 3,
        ResourceKind::Mesh => 4,
        ResourceKind::Camera => 5,
    }
}

/// The keys of all resource kinds.
pub open spec fn registered_keys() -> Set<TypeKey> {
    Set::new(|key: TypeKey| exists|kind: ResourceKind| kind_key(kind) == key)
}

impl ResourceKind {
    /// The registry key of this kind.
    pub fn type_key(&self) -> (key: TypeKey)
        ensures
            key == kind_key(*self),
    {
        match self {
            ResourceKind::AttributeF32 => 0,
            ResourceKind::AttributeF64 => 1,
            ResourceKind::AttributeUsize => 2,
            ResourceKind::Geometry => 3,
            ResourceKind::Mesh => 4,
            ResourceKind::Camera => 5,
        }
    }
}

/// The registry of resource pools, one per resource kind.
pub struct ResourcePools<R> {
    pools: HashMap<TypeKey, ResourcePool<R>>,
}

impl<R> View for ResourcePools<R> {
    type V = Map<TypeKey, Map<UId, R>>;

    /// The contents of the pool registered under each key.
    closed spec fn view(&self) -> Map<TypeKey, Map<UId, R>> {
        self.pools@.map_values(|pool: ResourcePool<R>| pool@)
    }
}

impl<R> ResourcePools<R> {
    /// Exactly the keys of all resource kinds are registered, and each pool is well formed.
    pub closed spec fn wf(&self) -> bool {
        &&& self.pools@.dom() == registered_keys()
        &&& forall|key: TypeKey| #[trigger] self.pools@.contains_key(key) ==> self.pools@[key].wf()
    }

    /// A registry with an empty pool for every resource kind.
    pub fn new() -> (pools: Self)
        ensures
            pools.wf(),
            pools@.dom() == registered_keys(),
            forall|key: TypeKey| #[trigger] pools@.contains_key(key) ==> pools@[key] == Map::<UId, R>::empty(),
    {
        let mut pools: HashMap<TypeKey, ResourcePool<R>> = HashMap::new();
        Self::add(&mut pools, ResourceKind::AttributeF32);
        Self::add(&mut pools, ResourceKind::AttributeF64);
        Self::add(&mut pools, ResourceKind::AttributeUsize);
        Self::add(&mut pools, ResourceKind::Geometry);
        Self::add(&mut pools, ResourceKind::Mesh);
        Self::add(&mut pools, ResourceKind::Camera);
        let r = ResourcePools { pools: pools };
        proof {
            assert forall|key: TypeKey| r.pools@.contains_key(key) == registered_keys().contains(key) by {
                if registered_keys().contains(key) {
                    let kind = choose|kind: ResourceKind| kind_key(kind) == key;
                    assert(r.pools@.contains_key(kind_key(kind)));
                }
                if r.pools@.contains_key(key) {
                    if key == 0 {
                        assert(kind_key(ResourceKind::AttributeF32) == key);
                    } else if key == 1 {
                        assert(kind_key(ResourceKind::AttributeF64) == key);
                    } else if key == 2 {
                        assert(kind_key(ResourceKind::AttributeUsize) == key);
                    } else if key == 3 {
                        assert(kind_key(ResourceKind::Geometry) == key);
                    } else if key == 4 {
                        assert(kind_key(ResourceKind::Mesh) == key);
                    } else {
                        assert(kind_key(ResourceKind::Camera) == key);
                    }
                }
            }
            assert(r.pools@.dom() =~= registered_keys());
        }
        r
    }

    /// Registers an empty pool for `kind`.
    fn add(pools: &mut HashMap<TypeKey, ResourcePool<R>>, kind: ResourceKind)
        ensures
            final(pools)@.dom() == old(pools)@.dom().insert(kind_key(kind)),
            forall|key: TypeKey| #[trigger] final(pools)@.contains_key(key) ==> (if key == kind_key(kind) {
                final(pools)@[key].wf() && final(pools)@[key]@ == Map::<UId, R>::empty()
            } else {
                final(pools)@[key] == old(pools)@[key]
            }),
    {
        pools.insert(kind.type_key(), ResourcePool::new());
    }

    /// The pool of resources of `kind`.
    pub fn borrow(&self, kind: ResourceKind) -> (pool: &ResourcePool<R>)
        requires
            self.wf(),
        ensures
            pool.wf(),
            self@.contains_key(kind_key(kind)),
            pool@ == self@[kind_key(kind)],
    {
        let key = kind.type_key();
        assert(registered_keys().contains(key));
        self.pools.get(&key).unwrap()
    }

    /// Mutable access to the pool of resources of `kind`; the registry stays well formed as
    /// long as the pool does.
    pub fn borrow_mut(&mut self, kind: ResourceKind) -> (pool: &mut ResourcePool<R>)
        requires
            old(self).wf(),
        ensures
            pool.wf(),
            old(self)@.contains_key(kind_key(kind)),
            pool@ == old(self)@[kind_key(kind)],
            final(self)@ == old(self)@.insert(kind_key(kind), final(pool)@),
            final(pool).wf() ==> final(self).wf(),
    {
        let key = kind.type_key();
        assert(registered_keys().contains(key));
        proof {
            let m = old(self).pools@;
            assert forall|p: ResourcePool<R>| p.wf() implies {
                let n = #[trigger] m.insert(key, p);
                &&& n.dom() == registered_keys()
                &&& forall|k: TypeKey| #[trigger] n.contains_key(k) ==> n[k].wf()
            } by {
                assert(m.insert(key, p).dom() =~= m.dom());
            }
        }
        self.pools.entry(key).or_insert(ResourcePool::new())
    }

    /// Mutable access to the pool of resources of `kind`, as `borrow_mut`.
    pub fn borrow_mut_unsafe(&mut self, kind: ResourceKind) -> (pool: &mut ResourcePool<R>)
        requires
            old(self).wf(),
        ensures
            pool.wf(),
            old(self)@.contains_key(kind_key(kind)),
            pool@ == old(self)@[kind_key(kind)],
            final(self)@ == old(self)@.insert(kind_key(kind), final(pool)@),
            final(pool).wf() ==> final(self).wf(),
    {
        self.borrow_mut(kind)
    }
}

/// Read after write: once a resource is stored under `id` (by `add`, `set` or a write through
/// `borrow_mut`), `borrow` finds exactly that resource under `id`, and every other
/// identifier keeps what it held.
pub proof fn lemma_read_after_write<T>(before: Map<UId, T>, id: UId, resource: T, other: UId)
    ensures
        before.insert(id, resource).contains_key(id),
        before.insert(id, resource)[id] == resource,
        other != id ==> before.insert(id, resource).contains_key(other) == before.contains_key(
            other,
        ),
        other != id && before.contains_key(other) ==> before.insert(id, resource)[other]
            == before[other],
{
}

/// All identifiers of `m` lie below `next`.
pub open spec fn keys_below<T>(m: Map<UId, T>, next: UId) -> bool {
    forall|k: UId| #[trigger] m.contains_key(k) ==> k < next
}

/// A pool filled only through `add` with one identifier counter never loses a resource: while
/// all stored identifiers lie below the counter and the counter has not reached
/// `usize::MAX`, the identifier that `add` hands out is new to the pool, every resource
/// stored before is kept, and all identifiers stay below the advanced counter.
pub proof fn lemma_add_never_overwrites<T>(before: Map<UId, T>, next: UId, resource: T)
    requires
        keys_below(before, next),
        next < usize::MAX,
    ensures
        !before.contains_key(next),
        forall|k: UId| #[trigger] before.contains_key(k) ==> before.insert(next, resource).contains_key(k)
            && before.insert(next, resource)[k] == before[k],
        keys_below(before.insert(next, resource), successor(next)),
{
}

/// Distinct resource kinds have distinct registry keys, so each kind has a pool of its own.
pub proof fn lemma_kind_keys_distinct(a: ResourceKind, b: ResourceKind)
    ensures
        kind_key(a) == kind_key(b) <==> a == b,
{
}

/// Writing to the pool of one kind leaves the pools of all other kinds unchanged.
pub proof fn lemma_other_pools_unchanged<R>(
    before: Map<TypeKey, Map<UId, R>>,
    kind: ResourceKind,
    pool: Map<UId, R>,
    other: ResourceKind,
)
    requires
        before.contains_key(kind_key(other)),
        other != kind,
    ensures
        before.insert(kind_key(kind), pool)[kind_key(other)] == before[kind_key(other)],
{
}

} // verus!
