use crate::config::TypeIdentity;
use std::collections::HashMap;
use vstd::prelude::*;

verus! {

broadcast use vstd::std_specs::hash::group_hash_axioms;

/// The slots after committing `slot` under `t`: a slot, once there, is never replaced.
pub open spec fn committed<S>(slots: Map<TypeIdentity, S>, t: TypeIdentity, slot: S) -> Map<
    TypeIdentity,
    S,
> {
    if slots.contains_key(t) {
        slots
    } else {
        slots.insert(t, slot)
    }
}

/// Receives the values that a test or fixture produces, one per type.
pub struct Receiver<V> {
    outputs: HashMap<TypeIdentity, V>,
}

impl<V> Receiver<V> {
    /// The values received so far, by type.
    pub closed spec fn outputs(&self) -> Map<TypeIdentity, V> {
        self.outputs@
    }

    pub fn new() -> (r: Receiver<V>)
        ensures
            r.outputs().is_empty(),
    {
        let r = Receiver { outputs: HashMap::new() };
        proof {
            assert(r.outputs@ =~= Map::empty());
        }
        r
    }

    /// Stores `output` as the value of type `t`; one invocation gives at most one value of
    /// each type.
    pub fn receive_output(&mut self, t: TypeIdentity, output: V)
        requires
            !old(self).outputs().contains_key(t),
        ensures
            final(self).outputs() == old(self).outputs().insert(t, output),
    {
        self.outputs.insert(t, output);
    }

    /// Whether a value of type `t` was received.
    pub fn has_output(&self, t: TypeIdentity) -> (r: bool)
        ensures
            r == self.outputs().contains_key(t),
    {
        self.outputs.contains_key(&t)
    }

    /// Takes the value of type `t` out of the receiver.
    pub fn take_output(&mut self, t: TypeIdentity) -> (r: Option<V>)
        ensures
            final(self).outputs() == old(self).outputs().remove(t),
            old(self).outputs().contains_key(t) ==> r == Some(old(self).outputs()[t]),
            !old(self).outputs().contains_key(t) ==> r is None,
    {
        self.outputs.remove(&t)
    }
}

/// The committed outputs of fixtures, one slot per type. Slots are only ever added.
pub struct ResourceStore<S> {
    slots: HashMap<TypeIdentity, S>,
}

impl<S> ResourceStore<S> {
    pub closed spec fn slots(&self) -> Map<TypeIdentity, S> {
        self.slots@
    }

    pub fn new() -> (r: ResourceStore<S>)
        ensures
            r.slots().is_empty(),
    {
        let r = ResourceStore { slots: HashMap::new() };
        proof {
            assert(r.slots@ =~= Map::empty());
        }
        r
    }

    /// Commits `slot` as the resource of type `t`, unless that type already has one; tells
    /// whether it was added.
    pub fn commit(&mut self, t: TypeIdentity, slot: S) -> (r: bool)
        ensures
            r == !old(self).slots().contains_key(t),
            final(self).slots() == committed(old(self).slots(), t, slot),
    {
        if self.slots.contains_key(&t) {
            false
        } else {
            self.slots.insert(t, slot);
            true
        }
    }

    /// The resource of type `t`, if it was committed.
    pub fn get(&self, t: TypeIdentity) -> (r: Option<&S>)
        ensures
            self.slots().contains_key(t) ==> r == Some(&self.slots()[t]),
            !self.slots().contains_key(t) ==> r is None,
    {
        self.slots.get(&t)
    }
}

/// A value handed over for good.
pub struct OwnedGuard<O> {
    inner: O,
}

/// Shared access to a resource for one invocation.
pub struct ReadGuard<R> {
    inner: R,
}

/// Exclusive access to a resource for one invocation.
pub struct WriteGuard<W> {
    inner: W,
}

impl<O> OwnedGuard<O> {
    pub closed spec fn inner(&self) -> O {
        self.inner
    }

    /// The value the guard holds.
    pub fn guard_extract(self) -> (r: O)
        ensures
            r == self.inner(),
    {
        self.inner
    }
}

impl<R> ReadGuard<R> {
    pub closed spec fn inner(&self) -> R {
        self.inner
    }

    /// The access the guard grants.
    pub fn guard_extract(&self) -> (r: &R)
        ensures
            *r == self.inner(),
    {
        &self.inner
    }
}

impl<W> WriteGuard<W> {
    pub closed spec fn inner(&self) -> W {
        self.inner
    }

    /// The access the guard grants.
    pub fn guard_extract(&mut self) -> (r: &mut W)
        ensures
            *r == old(self).inner(),
            final(self).inner() == *final(r),
    {
        &mut self.inner
    }
}

/// The resources one invocation declared, by type: owned values, shared and exclusive access.
pub struct Dependencies<O, R, W> {
    owned: HashMap<TypeIdentity, O>,
    shared: HashMap<TypeIdentity, R>,
    exclusive: HashMap<TypeIdentity, W>,
}

impl<O, R, W> Dependencies<O, R, W> {
    pub closed spec fn owned_values(&self) -> Map<TypeIdentity, O> {
        self.owned@
    }

    pub closed spec fn shared_access(&self) -> Map<TypeIdentity, R> {
        self.shared@
    }

    pub closed spec fn exclusive_access(&self) -> Map<TypeIdentity, W> {
        self.exclusive@
    }

    pub fn new() -> (r: Dependencies<O, R, W>)
        ensures
            r.owned_values().is_empty(),
            r.shared_access().is_empty(),
            r.exclusive_access().is_empty(),
    {
        let r = Dependencies { owned: HashMap::new(), shared: HashMap::new(), exclusive: HashMap::new() };
        proof {
            assert(r.owned@ =~= Map::empty());
            assert(r.shared@ =~= Map::empty());
            assert(r.exclusive@ =~= Map::empty());
        }
        r
    }

    pub fn add_owned(&mut self, t: TypeIdentity, value: O)
        ensures
            final(self).owned_values() == old(self).owned_values().insert(t, value),
            final(self).shared_access() == old(self).shared_access(),
            final(self).exclusive_access() == old(self).exclusive_access(),
    {
        self.owned.insert(t, value);
    }

    pub fn add_shared(&mut self, t: TypeIdentity, access: R)
        ensures
            final(self).shared_access() == old(self).shared_access().insert(t, access),
            final(self).owned_values() == old(self).owned_values(),
            final(self).exclusive_access() == old(self).exclusive_access(),
    {
        self.shared.insert(t, access);
    }

    pub fn add_exclusive(&mut self, t: TypeIdentity, access: W)
        ensures
            final(self).exclusive_access() == old(self).exclusive_access().insert(t, access),
            final(self).owned_values() == old(self).owned_values(),
            final(self).shared_access() == old(self).shared_access(),
    {
        self.exclusive.insert(t, access);
    }

    /// Whether an owned value, shared access or exclusive access of type `t` is in the bundle,
    /// in that order.
    pub fn holds(&self, t: TypeIdentity) -> (r: (bool, bool, bool))
        ensures
            r == (self.owned_values().contains_key(t), self.shared_access().contains_key(t),
                self.exclusive_access().contains_key(t)),
    {
        (self.owned.contains_key(&t), self.shared.contains_key(&t), self.exclusive.contains_key(&t))
    }

    /// Takes the owned value of type `t`; the invocation declared it.
    pub fn owned(&mut self, t: TypeIdentity) -> (r: OwnedGuard<O>)
        requires
            old(self).owned_values().contains_key(t),
        ensures
            r.inner() == old(self).owned_values()[t],
            final(self).owned_values() == old(self).owned_values().remove(t),
            final(self).shared_access() == old(self).shared_access(),
            final(self).exclusive_access() == old(self).exclusive_access(),
    {
        let inner = self.owned.remove(&t).unwrap();
        OwnedGuard { inner }
    }

    /// Takes shared access to the resource of type `t`; the invocation declared it.
    pub fn shared(&mut self, t: TypeIdentity) -> (r: ReadGuard<R>)
        requires
            old(self).shared_access().contains_key(t),
        ensures
            r.inner() == old(self).shared_access()[t],
            final(self).shared_access() == old(self).shared_access().remove(t),
            final(self).owned_values() == old(self).owned_values(),
            final(self).exclusive_access() == old(self).exclusive_access(),
    {
        let inner = self.shared.remove(&t).unwrap();
        ReadGuard { inner }
    }

    /// Takes exclusive access to the resource of type `t`; the invocation declared it.
    pub fn exclusive(&mut self, t: TypeIdentity) -> (r: WriteGuard<W>)
        requires
            old(self).exclusive_access().contains_key(t),
        ensures
            r.inner() == old(self).exclusive_access()[t],
            final(self).exclusive_access() == old(self).exclusive_access().remove(t),
            final(self).owned_values() == old(self).owned_values(),
            final(self).shared_access() == old(self).shared_access(),
    {
        let inner = self.exclusive.remove(&t).unwrap();
        WriteGuard { inner }
    }
}

} // verus!
