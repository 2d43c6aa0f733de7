//! Guards: handles that represent granted claims on a cache entry.
//!
//! A [`CfgRef`] stands for one shared claim, a [`CfgMut`] for the exclusive
//! claim. A guard is obtained from the facade and must be given back to it
//! ([`crate::config::Config::release`], [`crate::config::Config::release_mut`]);
//! the claim it stands for is held until then. The exclusive guard records
//! whether it was ever mutably dereferenced: only then is the entry marked
//! dirty when the guard comes back.

use vstd::prelude::*;

verus! {

/// A granted shared claim on the entry keyed `key`, carrying a duplicate of
/// the cached value.
pub struct CfgRef<V> {
    pub(crate) key: u64,
    pub(crate) value: V,
}

impl<V> CfgRef<V> {
    /// The key of the entry this guard was granted on.
    pub closed spec fn key_spec(&self) -> u64 {
        self.key
    }

    /// The value this guard carries.
    pub closed spec fn value_spec(&self) -> V {
        self.value
    }

    pub(crate) fn new(key: u64, value: V) -> (g: Self)
        ensures
            g.key_spec() == key,
            g.value_spec() == value,
    {
        CfgRef { key, value }
    }

    /// The key of the entry this guard was granted on.
    pub fn key(&self) -> (k: u64)
        ensures
            k == self.key_spec(),
    {
        self.key
    }

    /// Dereference the guard: read the value.
    pub fn value(&self) -> (r: &V)
        ensures
            *r == self.value_spec(),
    {
        &self.value
    }
}

/// The granted exclusive claim on the entry keyed `key`. The value is
/// checked out of the entry's slot for the guard's lifetime and goes back
/// on release.
pub struct CfgMut<V> {
    pub(crate) key: u64,
    pub(crate) value: V,
    pub(crate) dirtied: bool,
}

impl<V> CfgMut<V> {
    /// The key of the entry this guard was granted on.
    pub closed spec fn key_spec(&self) -> u64 {
        self.key
    }

    /// The value this guard carries.
    pub closed spec fn value_spec(&self) -> V {
        self.value
    }

    /// Whether the guard was ever mutably dereferenced.
    pub closed spec fn is_dirtied(&self) -> bool {
        self.dirtied
    }

    pub(crate) fn new(key: u64, value: V) -> (g: Self)
        ensures
            g.key_spec() == key,
            g.value_spec() == value,
            !g.is_dirtied(),
    {
        CfgMut { key, value, dirtied: false }
    }

    /// The key of the entry this guard was granted on.
    pub fn key(&self) -> (k: u64)
        ensures
            k == self.key_spec(),
    {
        self.key
    }

    pub(crate) fn into_parts(self) -> (t: (u64, V, bool))
        ensures
            t.0 == self.key_spec(),
            t.1 == self.value_spec(),
            t.2 == self.is_dirtied(),
    {
        (self.key, self.value, self.dirtied)
    }

    /// Dereference the guard: read the value. Reading does not mark
    /// anything dirty.
    pub fn value(&self) -> (r: &V)
        ensures
            *r == self.value_spec(),
    {
        &self.value
    }

    /// Mutably dereference the guard. Every mutable dereference marks the
    /// guard as dirtied, so the entry will be marked dirty when the guard
    /// is released — acquisition alone never does.
    pub fn value_mut(&mut self) -> (r: &mut V)
        ensures
            *r == old(self).value_spec(),
            final(self).value_spec() == *final(r),
            final(self).key_spec() == old(self).key_spec(),
            final(self).is_dirtied(),
    {
        self.dirtied = true;
        &mut self.value
    }
}

} // verus!
