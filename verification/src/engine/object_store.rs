//! The content-addressed store of sealed objects.

use crate::sealed::{SealedModel, SealedObject};
use crate::sorted::SortedMap;
use crate::types::{Oid, RepoError};
use vstd::prelude::*;

verus! {

/// The model of an [`ObjectStore`].
pub type Objects = Map<Seq<u8>, SealedModel>;

/// Sealed objects by address.
#[derive(Debug)]
pub struct ObjectStore {
    objects: SortedMap<Oid, SealedObject>,
}

impl DeepView for ObjectStore {
    type V = Objects;

    closed spec fn deep_view(&self) -> Objects {
        self.objects.deep_view()
    }
}

impl ObjectStore {
    pub fn new() -> (r: Self)
        ensures
            r.deep_view() == Map::<Seq<u8>, SealedModel>::empty(),
    {
        ObjectStore { objects: SortedMap::new() }
    }

    /// Stores an object; whether it is new. What is stored already stays as it is.
    pub fn put(&mut self, addr: Oid, obj: SealedObject) -> (new: bool)
        ensures
            new == !old(self).deep_view().contains_key(addr.deep_view()),
            final(self).deep_view() == if new {
                old(self).deep_view().insert(addr.deep_view(), obj.deep_view())
            } else {
                old(self).deep_view()
            },
    {
        if self.objects.contains_key(&addr) {
            return false;
        }
        self.objects.insert(addr, obj);
        true
    }

    /// The object at an address.
    pub fn get(&self, oid: &Oid) -> (r: Result<&SealedObject, RepoError>)
        ensures
            match r {
                Ok(o) => self.deep_view().contains_key(oid.deep_view())
                    && self.deep_view()[oid.deep_view()] == o.deep_view(),
                Err(e) => !self.deep_view().contains_key(oid.deep_view()) && e == RepoError::NotFound(*oid),
            },
    {
        match self.objects.get(oid) {
            Some(o) => Ok(o),
            None => Err(RepoError::NotFound(*oid)),
        }
    }

    /// Whether there is an object at an address.
    pub fn holds(&self, oid: &Oid) -> (b: bool)
        ensures
            b == self.deep_view().contains_key(oid.deep_view()),
    {
        self.objects.contains_key(oid)
    }

    /// Destroys the object at an address.
    pub fn remove(&mut self, oid: &Oid)
        ensures
            final(self).deep_view() == old(self).deep_view().remove(oid.deep_view()),
    {
        self.objects.remove(oid);
    }

    /// The objects by address.
    pub fn as_map(&self) -> (r: &SortedMap<Oid, SealedObject>)
        ensures
            r.deep_view() == self.deep_view(),
    {
        &self.objects
    }
}

impl Default for ObjectStore {
    fn default() -> (r: Self)
        ensures
            r.deep_view() == Map::<Seq<u8>, SealedModel>::empty(),
    {
        ObjectStore::new()
    }
}

} // verus!
