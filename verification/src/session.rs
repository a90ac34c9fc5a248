//! Disjoint session stores for the overt and the deniable ratchet.
//!
//! The overt and the covert channel each keep their own sessions and
//! identity keys.  No operation on one store reads or writes the other:
//! mixing them would let the visible ratchet betray the covert one.

use vstd::prelude::*;

use crate::client::{assoc_find, assoc_remove};
use crate::store::bytes_eq;

verus! {

/// Mathematical state of one ratchet store: per-peer identity keys and
/// session records.
#[verifier::ext_equal]
pub ghost struct SessionStoreModel {
    pub identities: Seq<(Seq<u8>, Seq<u8>)>,
    pub sessions: Seq<(Seq<u8>, Seq<u8>)>,
}

/// Replacing what a key stores: the old pair leaves, the new one arrives.
pub open spec fn assoc_set(s: Seq<(Seq<u8>, Seq<u8>)>, k: Seq<u8>, v: Seq<u8>) -> Seq<
    (Seq<u8>, Seq<u8>),
> {
    assoc_remove(s, k).push((k, v))
}

/// Storing a session record for a peer.
pub open spec fn store_session_spec(m: SessionStoreModel, peer: Seq<u8>, record: Seq<u8>) -> SessionStoreModel {
    SessionStoreModel { sessions: assoc_set(m.sessions, peer, record), ..m }
}

/// Saving a peer's identity key.
pub open spec fn save_identity_spec(m: SessionStoreModel, peer: Seq<u8>, key: Seq<u8>) -> SessionStoreModel {
    SessionStoreModel { identities: assoc_set(m.identities, peer, key), ..m }
}

/// One ratchet store: per-peer identity keys and session records.
pub struct SessionStore {
    identities: Vec<(Vec<u8>, Vec<u8>)>,
    sessions: Vec<(Vec<u8>, Vec<u8>)>,
}

impl SessionStore {
    /// The mathematical state.
    pub closed spec fn model(&self) -> SessionStoreModel {
        SessionStoreModel {
            identities: self.identities@.map_values(|p: (Vec<u8>, Vec<u8>)| (p.0@, p.1@)),
            sessions: self.sessions@.map_values(|p: (Vec<u8>, Vec<u8>)| (p.0@, p.1@)),
        }
    }

    pub fn new() -> (r: SessionStore)
        ensures
            r.model() == (SessionStoreModel {
                identities: Seq::<(Seq<u8>, Seq<u8>)>::empty(),
                sessions: Seq::<(Seq<u8>, Seq<u8>)>::empty(),
            }),
    {
        let r = SessionStore { identities: Vec::new(), sessions: Vec::new() };
        proof {
            assert(r.model() =~= (SessionStoreModel {
                identities: Seq::<(Seq<u8>, Seq<u8>)>::empty(),
                sessions: Seq::<(Seq<u8>, Seq<u8>)>::empty(),
            }));
        }
        r
    }

    /// The session record stored for a peer, if any.
    pub fn load_session(&self, peer: &Vec<u8>) -> (r: Option<Vec<u8>>)
        ensures
            match r {
                Some(v) => assoc_find(self.model().sessions, peer@) == Some(v@),
                None => assoc_find(self.model().sessions, peer@) is None,
            },
    {
        Self::lookup(&self.sessions, peer)
    }

    /// The identity key stored for a peer, if any.
    pub fn get_identity(&self, peer: &Vec<u8>) -> (r: Option<Vec<u8>>)
        ensures
            match r {
                Some(v) => assoc_find(self.model().identities, peer@) == Some(v@),
                None => assoc_find(self.model().identities, peer@) is None,
            },
    {
        Self::lookup(&self.identities, peer)
    }

    /// Trust on first use: a peer's key is trusted when none is stored yet
    /// or the stored one matches.
    pub fn is_trusted_identity(&self, peer: &Vec<u8>, key: &Vec<u8>) -> (r: bool)
        ensures
            r == (match assoc_find(self.model().identities, peer@) {
                None => true,
                Some(k) => k == key@,
            }),
    {
        match Self::lookup(&self.identities, peer) {
            None => true,
            Some(stored) => bytes_eq(&stored, key),
        }
    }

    /// Store (or replace) the session record for a peer.
    pub fn store_session(&mut self, peer: &Vec<u8>, record: Vec<u8>)
        ensures
            final(self).model() == store_session_spec(old(self).model(), peer@, record@),
    {
        Self::set(&mut self.sessions, peer, record);
        proof {
            assert(final(self).model() =~= store_session_spec(
                old(self).model(),
                peer@,
                record@,
            ));
        }
    }

    /// Store (or replace) the identity key for a peer.
    pub fn save_identity(&mut self, peer: &Vec<u8>, key: Vec<u8>)
        ensures
            final(self).model() == save_identity_spec(old(self).model(), peer@, key@),
    {
        Self::set(&mut self.identities, peer, key);
        proof {
            assert(final(self).model() =~= save_identity_spec(old(self).model(), peer@, key@));
        }
    }

    /// First value under a key.
    fn lookup(s: &Vec<(Vec<u8>, Vec<u8>)>, k: &Vec<u8>) -> (r: Option<Vec<u8>>)
        ensures
            ({
                let m = s@.map_values(|p: (Vec<u8>, Vec<u8>)| (p.0@, p.1@));
                match r {
                    Some(v) => assoc_find(m, k@) == Some(v@),
                    None => assoc_find(m, k@) is None,
                }
            }),
    {
        let mut i: usize = 0;
        let ghost m = s@.map_values(|p: (Vec<u8>, Vec<u8>)| (p.0@, p.1@));
        proof {
            assert(m.skip(0) =~= m);
        }
        while i < s.len()
            invariant
                m == s@.map_values(|p: (Vec<u8>, Vec<u8>)| (p.0@, p.1@)),
                m.len() == s@.len(),
                0 <= i <= s@.len(),
                assoc_find(m, k@) == assoc_find(m.skip(i as int), k@),
            decreases s@.len() - i,
        {
            proof {
                assert(m.skip(i as int).first() == (s@[i as int].0@, s@[i as int].1@));
                assert(m.skip(i as int).drop_first() =~= m.skip(i + 1));
            }
            if bytes_eq(&s[i].0, k) {
                let v = crate::chunker::copy_range(&s[i].1, 0, s[i].1.len());
                proof {
                    assert(v@ =~= s@[i as int].1@);
                }
                return Some(v);
            }
            i = i + 1;
        }
        proof {
            assert(m.skip(m.len() as int) =~= Seq::<(Seq<u8>, Seq<u8>)>::empty());
        }
        None
    }

    /// Replace what a key stores.
    fn set(s: &mut Vec<(Vec<u8>, Vec<u8>)>, k: &Vec<u8>, v: Vec<u8>)
        ensures
            final(s)@.map_values(|p: (Vec<u8>, Vec<u8>)| (p.0@, p.1@)) == assoc_set(
                old(s)@.map_values(|p: (Vec<u8>, Vec<u8>)| (p.0@, p.1@)),
                k@,
                v@,
            ),
    {
        crate::client::assoc_remove_first(s, k);
        let k_copy = crate::chunker::copy_range(k, 0, k.len());
        let ghost mid = s@.map_values(|p: (Vec<u8>, Vec<u8>)| (p.0@, p.1@));
        s.push((k_copy, v));
        proof {
            assert(k_copy@ =~= k@);
            assert(s@.map_values(|p: (Vec<u8>, Vec<u8>)| (p.0@, p.1@)) =~= mid.push((k@, v@)));
        }
    }
}

/// Mathematical state of a device's two ratchet stores.
#[verifier::ext_equal]
pub ghost struct DeviceStorageModel {
    pub overt: SessionStoreModel,
    pub deniable: SessionStoreModel,
}

/// A device's two ratchet stores, disjoint by construction.
pub struct DeviceStorage {
    overt: SessionStore,
    deniable: SessionStore,
}

impl DeviceStorage {
    pub closed spec fn model(&self) -> DeviceStorageModel {
        DeviceStorageModel { overt: self.overt.model(), deniable: self.deniable.model() }
    }

    pub fn new() -> (r: DeviceStorage)
        ensures
            r.model().overt == (SessionStoreModel {
                identities: Seq::<(Seq<u8>, Seq<u8>)>::empty(),
                sessions: Seq::<(Seq<u8>, Seq<u8>)>::empty(),
            }),
            r.model().deniable == (SessionStoreModel {
                identities: Seq::<(Seq<u8>, Seq<u8>)>::empty(),
                sessions: Seq::<(Seq<u8>, Seq<u8>)>::empty(),
            }),
    {
        DeviceStorage { overt: SessionStore::new(), deniable: SessionStore::new() }
    }

    /// Store an overt session; the deniable store is untouched.
    pub fn store_session(&mut self, peer: &Vec<u8>, record: Vec<u8>)
        ensures
            final(self).model().overt == store_session_spec(
                old(self).model().overt,
                peer@,
                record@,
            ),
            final(self).model().deniable == old(self).model().deniable,
    {
        self.overt.store_session(peer, record);
    }

    /// Store a deniable session; the overt store is untouched.
    pub fn store_deniable_session(&mut self, peer: &Vec<u8>, record: Vec<u8>)
        ensures
            final(self).model().deniable == store_session_spec(
                old(self).model().deniable,
                peer@,
                record@,
            ),
            final(self).model().overt == old(self).model().overt,
    {
        self.deniable.store_session(peer, record);
    }

    /// Save an overt identity key; the deniable store is untouched.
    pub fn save_identity(&mut self, peer: &Vec<u8>, key: Vec<u8>)
        ensures
            final(self).model().overt == save_identity_spec(
                old(self).model().overt,
                peer@,
                key@,
            ),
            final(self).model().deniable == old(self).model().deniable,
    {
        self.overt.save_identity(peer, key);
    }

    /// Save a deniable identity key; the overt store is untouched.
    pub fn save_deniable_identity(&mut self, peer: &Vec<u8>, key: Vec<u8>)
        ensures
            final(self).model().deniable == save_identity_spec(
                old(self).model().deniable,
                peer@,
                key@,
            ),
            final(self).model().overt == old(self).model().overt,
    {
        self.deniable.save_identity(peer, key);
    }

    /// The overt session for a peer.
    pub fn load_session(&self, peer: &Vec<u8>) -> (r: Option<Vec<u8>>)
        ensures
            match r {
                Some(v) => assoc_find(self.model().overt.sessions, peer@) == Some(v@),
                None => assoc_find(self.model().overt.sessions, peer@) is None,
            },
    {
        self.overt.load_session(peer)
    }

    /// The deniable session for a peer.
    pub fn load_deniable_session(&self, peer: &Vec<u8>) -> (r: Option<Vec<u8>>)
        ensures
            match r {
                Some(v) => assoc_find(self.model().deniable.sessions, peer@) == Some(v@),
                None => assoc_find(self.model().deniable.sessions, peer@) is None,
            },
    {
        self.deniable.load_session(peer)
    }
}

/// No operation of one ratchet crosses to the other: any interleaving of
/// overt and deniable writes leaves each store exactly as its own writes
/// built it. (law)
pub proof fn lemma_disjoint_ratchets(
    m: DeviceStorageModel,
    peer: Seq<u8>,
    record: Seq<u8>,
    key: Seq<u8>,
)
    ensures
        (DeviceStorageModel {
            deniable: store_session_spec(m.deniable, peer, record),
            ..m
        }).overt == m.overt,
        (DeviceStorageModel {
            deniable: save_identity_spec(m.deniable, peer, key),
            ..m
        }).overt == m.overt,
        (DeviceStorageModel { overt: store_session_spec(m.overt, peer, record), ..m }).deniable
            == m.deniable,
        (DeviceStorageModel { overt: save_identity_spec(m.overt, peer, key), ..m }).deniable
            == m.deniable,
{
}

} // verus!
