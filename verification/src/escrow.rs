//! Escrow: where the key of embargoed content waits for its reveal time.

use crate::sealed::{ContentKey, Keyring};
use crate::sorted::SortedMap;
use crate::types::Oid;
use crate::value::Value;
use vstd::prelude::*;

verus! {

/// One embargoed key with its reveal time.
#[derive(Clone, Copy, Debug, PartialEq, Eq)]
pub struct EscrowEntry {
    pub key: ContentKey,
    pub reveal_at: u64,
}

/// The model of an [`EscrowEntry`].
pub struct EscrowModel {
    pub key: Seq<u8>,
    pub reveal_at: u64,
}

impl DeepView for EscrowEntry {
    type V = EscrowModel;

    open spec fn deep_view(&self) -> EscrowModel {
        EscrowModel { key: self.key@, reveal_at: self.reveal_at }
    }
}

impl Value for EscrowEntry {
    fn dup(&self) -> (r: Self) {
        *self
    }

    fn same(&self, other: &Self) -> (b: bool) {
        crate::value::same_bytes(self.key.as_slice(), other.key.as_slice()) && self.reveal_at
            == other.reveal_at
    }
}

/// Custody of embargoed keys, apart from the keyring.
#[derive(Debug)]
pub struct Escrow {
    entries: SortedMap<Oid, EscrowEntry>,
}

impl DeepView for Escrow {
    type V = Map<Seq<u8>, EscrowModel>;

    closed spec fn deep_view(&self) -> Map<Seq<u8>, EscrowModel> {
        self.entries.deep_view()
    }
}

/// The entry's time has come.
pub open spec fn due(m: Map<Seq<u8>, EscrowModel>, oid: Seq<u8>, now: u64) -> bool {
    m.contains_key(oid) && m[oid].reveal_at <= now
}

/// What stays in escrow when everything due has left.
pub open spec fn still_held(m: Map<Seq<u8>, EscrowModel>, now: u64) -> Map<Seq<u8>, EscrowModel> {
    Map::new(|o: Seq<u8>| m.contains_key(o) && m[o].reveal_at > now, |o: Seq<u8>| m[o])
}

/// The keyring after everything due has come into it.
pub open spec fn promoted(
    m: Map<Seq<u8>, EscrowModel>,
    keys: Map<Seq<u8>, Seq<u8>>,
    now: u64,
) -> Map<Seq<u8>, Seq<u8>> {
    Map::new(
        |o: Seq<u8>| keys.contains_key(o) || due(m, o, now),
        |o: Seq<u8>| if due(m, o, now) { m[o].key } else { keys[o] },
    )
}

impl Escrow {
    pub fn new() -> (r: Self)
        ensures
            r.deep_view() == Map::<Seq<u8>, EscrowModel>::empty(),
    {
        Escrow { entries: SortedMap::new() }
    }

    /// An escrow of these entries.
    pub fn from_map(entries: SortedMap<Oid, EscrowEntry>) -> (r: Self)
        ensures
            r.deep_view() == entries.deep_view(),
    {
        Escrow { entries }
    }

    /// The entries by address.
    pub fn as_map(&self) -> (r: &SortedMap<Oid, EscrowEntry>)
        ensures
            r.deep_view() == self.deep_view(),
    {
        &self.entries
    }

    /// Files an embargoed key under its object's address.
    pub fn insert(&mut self, oid: Oid, key: ContentKey, reveal_at: u64)
        ensures
            final(self).deep_view() == old(self).deep_view().insert(
                oid.deep_view(),
                (EscrowModel { key: key@, reveal_at }),
            ),
    {
        self.entries.insert(oid, EscrowEntry { key, reveal_at });
    }

    /// Moves every key whose time has come into `keyring`.
    pub fn flush(&mut self, keyring: &mut Keyring, now: u64)
        ensures
            final(self).deep_view() == still_held(old(self).deep_view(), now),
            final(keyring).deep_view() == promoted(
                old(self).deep_view(),
                old(keyring).deep_view(),
                now,
            ),
    {
        let ghost m = self.deep_view();
        let ghost k0 = keyring.deep_view();
        let n: usize = self.entries.len();
        let ghost s = self.entries.pairs();
        let mut kept: SortedMap<Oid, EscrowEntry> = SortedMap::new();
        let mut i: usize = 0;
        while i < n
            invariant
                0 <= i <= n,
                n == s.len(),
                s == self.entries.pairs(),
                m == self.entries.deep_view(),
                m == self.deep_view(),
                m == crate::sorted::map_of(s),
                crate::sorted::rising::<Oid, EscrowModel>(s),
                forall|o: Seq<u8>| #[trigger] kept.deep_view().contains_key(o) <==> exists|j: int|
                    0 <= j < i && (#[trigger] s[j]).0 == o && s[j].1.reveal_at > now,
                forall|o: Seq<u8>| #[trigger] kept.deep_view().contains_key(o) ==> kept.deep_view()[o] == m[o],
                forall|o: Seq<u8>| #[trigger] keyring.deep_view().contains_key(o) <==> (k0.contains_key(o)
                    || exists|j: int| 0 <= j < i && (#[trigger] s[j]).0 == o && s[j].1.reveal_at <= now),
                forall|o: Seq<u8>| #[trigger] keyring.deep_view().contains_key(o) ==> keyring.deep_view()[o]
                    == (if exists|j: int| 0 <= j < i && (#[trigger] s[j]).0 == o && s[j].1.reveal_at <= now {
                        m[o].key
                    } else {
                        k0[o]
                    }),
            decreases n - i,
        {
            let oid = *self.entries.key_at(i);
            let e = *self.entries.value_at(i);
            let ghost kept0 = kept.deep_view();
            let ghost ring0 = keyring.deep_view();
            proof {
                crate::sorted::lemma_entry::<Oid, EscrowModel>(s, i as int);
            }
            if e.reveal_at <= now {
                keyring.insert(oid, e.key);
            } else {
                kept.insert(oid, e);
            }
            proof {
                let id = oid.deep_view();
                assert(s[i as int].0 == id && s[i as int].1 == e.deep_view());
                assert forall|o: Seq<u8>| #[trigger] keyring.deep_view().contains_key(o) implies
                    keyring.deep_view()[o] == (if exists|j: int|
                        0 <= j < i + 1 && (#[trigger] s[j]).0 == o && s[j].1.reveal_at <= now {
                        m[o].key
                    } else {
                        k0[o]
                    }) by {
                    if o != id {
                        assert(ring0.contains_key(o));
                    } else if e.reveal_at > now {
                        assert(ring0.contains_key(o));
                        if exists|j: int| 0 <= j < i + 1 && (#[trigger] s[j]).0 == o && s[j].1.reveal_at <= now {
                            let j = choose|j: int|
                                0 <= j < i + 1 && (#[trigger] s[j]).0 == o && s[j].1.reveal_at <= now;
                            crate::sorted::lemma_entry::<Oid, EscrowModel>(s, j);
                        }
                    }
                }
            }
            i = i + 1;
        }
        proof {
            assert forall|o: Seq<u8>| #[trigger] m.contains_key(o) implies exists|j: int|
                0 <= j < n && (#[trigger] s[j]).0 == o && s[j].1 == m[o] by {
                let j = crate::sorted::place_of(s, o);
                assert(s[j].0 == o);
            }
            assert forall|j: int| 0 <= j < n implies m.contains_key((#[trigger] s[j]).0) && m[s[j].0]
                == s[j].1 by {
                crate::sorted::lemma_entry::<Oid, EscrowModel>(s, j);
            }
            assert(kept.deep_view() =~= still_held(m, now));
            assert(keyring.deep_view() =~= promoted(m, k0, now));
        }
        self.entries = kept;
    }

    /// Whether this escrow holds an entry for `oid`.
    pub fn holds(&self, oid: &Oid) -> (b: bool)
        ensures
            b == self.deep_view().contains_key(oid.deep_view()),
    {
        self.entries.contains_key(oid)
    }

    /// The entry for `oid`, if there is one.
    pub fn get(&self, oid: &Oid) -> (r: Option<EscrowEntry>)
        ensures
            match r {
                Some(e) => self.deep_view().contains_key(oid.deep_view())
                    && self.deep_view()[oid.deep_view()] == e.deep_view(),
                None => !self.deep_view().contains_key(oid.deep_view()),
            },
    {
        match self.entries.get(oid) {
            Some(e) => Some(*e),
            None => None,
        }
    }

    /// Every entry in address order.
    pub fn iter(&self) -> (r: Vec<(Oid, EscrowEntry)>)
        ensures
            r.deep_view() == crate::sorted::pairs_of::<Oid, EscrowModel>(self.deep_view()),
            crate::sorted::lists::<Oid, EscrowModel>(r.deep_view(), self.deep_view()),
    {
        self.entries.to_pairs()
    }
}

impl Default for Escrow {
    fn default() -> (r: Self)
        ensures
            r.deep_view() == Map::<Seq<u8>, EscrowModel>::empty(),
    {
        Escrow::new()
    }
}

impl Clone for Escrow {
    fn clone(&self) -> (r: Self)
        ensures
            r.deep_view() == self.deep_view(),
    {
        Escrow { entries: self.entries.dup() }
    }
}

/// A key is never in both places after a flush because of it: what the flush
/// promoted has left the escrow, and what it left in escrow was not promoted.
pub proof fn law_flush_moves_keys(m: Map<Seq<u8>, EscrowModel>, keys: Map<Seq<u8>, Seq<u8>>, now: u64, oid: Seq<u8>)
    requires
        m.contains_key(oid),
    ensures
        m[oid].reveal_at <= now ==> promoted(m, keys, now).contains_key(oid) && promoted(m, keys, now)[oid]
            == m[oid].key && !still_held(m, now).contains_key(oid),
        m[oid].reveal_at > now ==> still_held(m, now).contains_key(oid) && still_held(m, now)[oid] == m[oid]
            && (promoted(m, keys, now).contains_key(oid) <==> keys.contains_key(oid)),
{
}

/// Flushing at the same time again changes nothing.
pub proof fn law_flush_idempotent(m: Map<Seq<u8>, EscrowModel>, keys: Map<Seq<u8>, Seq<u8>>, now: u64)
    ensures
        still_held(still_held(m, now), now) == still_held(m, now),
        promoted(still_held(m, now), promoted(m, keys, now), now) == promoted(m, keys, now),
{
    assert(still_held(still_held(m, now), now) =~= still_held(m, now));
    assert(promoted(still_held(m, now), promoted(m, keys, now), now) =~= promoted(m, keys, now));
}

/// A flush brings no key but those that are due, and touches no other key on the ring.
pub proof fn law_flush_touches_no_other_key(
    m: Map<Seq<u8>, EscrowModel>,
    keys: Map<Seq<u8>, Seq<u8>>,
    now: u64,
    oid: Seq<u8>,
)
    requires
        !(m.contains_key(oid) && m[oid].reveal_at <= now),
    ensures
        promoted(m, keys, now).contains_key(oid) <==> keys.contains_key(oid),
        keys.contains_key(oid) ==> promoted(m, keys, now)[oid] == keys[oid],
        still_held(m, now).contains_key(oid) <==> m.contains_key(oid),
{
}

} // verus!
