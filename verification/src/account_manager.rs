//! The account registry the routing layer consults.
//!
//! The durable registry lives outside the core; this model holds what the
//! deniable routing needs from it: which device identifiers belong to a
//! service identifier, so a payload for an account fans out to every device.

use vstd::prelude::*;

use crate::store::bytes_eq;

verus! {

/// The devices registered under each service identifier.
pub struct AccountManager {
    accounts: Vec<(Vec<u8>, Vec<u32>)>,
}

/// Index of a service identifier's entry, or the length when none exists.
pub open spec fn account_index_of(m: Seq<(Seq<u8>, Seq<u32>)>, sid: Seq<u8>) -> int
    decreases m.len(),
{
    if m.len() == 0 {
        0
    } else if m.first().0 == sid {
        0
    } else {
        1 + account_index_of(m.drop_first(), sid)
    }
}

/// Whether a service identifier is registered.
pub open spec fn account_has(m: Seq<(Seq<u8>, Seq<u32>)>, sid: Seq<u8>) -> bool {
    account_index_of(m, sid) < m.len()
}

/// `account_index_of` names exactly the first matching index.
proof fn lemma_account_index(m: Seq<(Seq<u8>, Seq<u32>)>, sid: Seq<u8>, i: int)
    requires
        0 <= i <= m.len(),
        forall|j: int| 0 <= j < i ==> (#[trigger] m[j]).0 != sid,
        i < m.len() ==> m[i].0 == sid,
    ensures
        account_index_of(m, sid) == i,
    decreases i,
{
    if m.len() == 0 {
    } else if i == 0 {
    } else {
        assert(m.first().0 != sid);
        assert(forall|j: int| 0 <= j < i - 1 ==> (#[trigger] m.drop_first()[j]).0 != sid) by {
            assert(forall|j: int|
                0 <= j < m.drop_first().len() ==> m.drop_first()[j] == m[j + 1]);
        }
        assert(i - 1 < m.drop_first().len() ==> m.drop_first()[i - 1].0 == sid);
        lemma_account_index(m.drop_first(), sid, i - 1);
    }
}

impl AccountManager {
    /// The registry as a map from service identifier to device list.
    pub closed spec fn model(&self) -> Seq<(Seq<u8>, Seq<u32>)> {
        self.accounts@.map_values(|p: (Vec<u8>, Vec<u32>)| (p.0@, p.1@))
    }

    /// At most one entry per service identifier.
    pub closed spec fn inv(&self) -> bool {
        forall|i: int, j: int|
            0 <= i < j < self.model().len() ==> (#[trigger] self.model()[i]).0 != (
            #[trigger] self.model()[j]).0
    }

    /// An empty registry.
    pub fn new() -> (r: AccountManager)
        ensures
            r.inv(),
            r.model() == Seq::<(Seq<u8>, Seq<u32>)>::empty(),
    {
        let r = AccountManager { accounts: Vec::new() };
        proof {
            assert(r.model() =~= Seq::<(Seq<u8>, Seq<u32>)>::empty());
        }
        r
    }

    /// The index of a service identifier's entry, if registered.
    fn position_of(&self, service_id: &Vec<u8>) -> (r: Option<usize>)
        ensures
            match r {
                Some(i) => account_has(self.model(), service_id@) && i == account_index_of(
                    self.model(),
                    service_id@,
                ) && self.model()[i as int].0 == service_id@,
                None => !account_has(self.model(), service_id@) && forall|i: int|
                    0 <= i < self.model().len() ==> (#[trigger] self.model()[i]).0 != service_id@,
            },
    {
        let mut i: usize = 0;
        while i < self.accounts.len()
            invariant
                0 <= i <= self.accounts@.len(),
                self.model().len() == self.accounts@.len(),
                forall|j: int| 0 <= j < i ==> (#[trigger] self.model()[j]).0 != service_id@,
            decreases self.accounts@.len() - i,
        {
            proof {
                assert(self.model()[i as int] == (
                    self.accounts@[i as int].0@,
                    self.accounts@[i as int].1@,
                ));
            }
            if bytes_eq(&self.accounts[i].0, service_id) {
                proof {
                    lemma_account_index(self.model(), service_id@, i as int);
                }
                return Some(i);
            }
            i = i + 1;
        }
        proof {
            lemma_account_index(self.model(), service_id@, self.model().len() as int);
        }
        None
    }

    /// Register a device under a service identifier, creating the account
    /// on first use: an existing account gains the device at the end of its
    /// list, everything else untouched; an unknown identifier gains a fresh
    /// single-device entry at the end of the registry.
    pub fn add_device(&mut self, service_id: &Vec<u8>, device_id: u32)
        requires
            old(self).inv(),
        ensures
            final(self).inv(),
            ({
                let m = old(self).model();
                if account_has(m, service_id@) {
                    let j = account_index_of(m, service_id@);
                    final(self).model() == m.update(j, (m[j].0, m[j].1.push(device_id)))
                } else {
                    final(self).model() == m.push((service_id@, seq![device_id]))
                }
            }),
    {
        match self.position_of(service_id) {
            Some(i) => {
                let ghost before = self.accounts@;
                let ghost old_model = self.model();
                let (sid, mut devices) = self.accounts.remove(i);
                devices.push(device_id);
                self.accounts.insert(i, (sid, devices));
                proof {
                    assert(forall|j: int|
                        0 <= j < self.accounts@.len() && j != i ==> self.accounts@[j]
                            == before[j]);
                    assert(self.accounts@[i as int].0@ == before[i as int].0@);
                    assert(self.model()[i as int].0 == service_id@);
                    assert(self.model()[i as int].1.last() == device_id);
                    assert forall|a: int, b: int| 0 <= a < b < self.model().len() implies (
                    #[trigger] self.model()[a]).0 != (#[trigger] self.model()[b]).0 by {
                        assert(self.model()[a].0 == before[a].0@);
                        assert(self.model()[b].0 == before[b].0@);
                        assert(old_model[a].0 == before[a].0@);
                        assert(old_model[b].0 == before[b].0@);
                        assert(old_model[a].0 != old_model[b].0);
                    }
                }
            },
            None => {
                let ghost before = self.accounts@;
                let sid = crate::chunker::copy_range(service_id, 0, service_id.len());
                let mut devices: Vec<u32> = Vec::new();
                devices.push(device_id);
                let ghost old_model = self.model();
                self.accounts.push((sid, devices));
                proof {
                    assert(self.model().last().0 =~= service_id@);
                    assert(self.model().last().1.last() == device_id);
                    assert forall|a: int, b: int| 0 <= a < b < self.model().len() implies (
                    #[trigger] self.model()[a]).0 != (#[trigger] self.model()[b]).0 by {
                        if b + 1 < self.model().len() {
                            assert(self.accounts@[a] == before[a] && self.accounts@[b]
                                == before[b]);
                            assert(self.model()[a].0 == old_model[a].0);
                            assert(self.model()[b].0 == old_model[b].0);
                            assert(old_model[a].0 != old_model[b].0);
                        } else {
                            assert(self.accounts@[a] == before[a]);
                            assert(self.model()[a] == (before[a].0@, before[a].1@));
                            assert(old_model[a].0 == before[a].0@);
                            assert(old_model[a].0 != service_id@);
                            assert(self.model()[b].0 == service_id@);
                        }
                    }
                }
            },
        }
    }

    /// Every device registered under a service identifier.
    pub fn get_all_devices(&self, service_id: &Vec<u8>) -> (r: Option<Vec<u32>>)
        ensures
            match r {
                Some(devices) => exists|i: int|
                    0 <= i < self.model().len() && (#[trigger] self.model()[i]).0 == service_id@
                        && self.model()[i].1 == devices@,
                None => forall|i: int|
                    0 <= i < self.model().len() ==> (#[trigger] self.model()[i]).0 != service_id@,
            },
    {
        match self.position_of(service_id) {
            Some(i) => {
                let mut out: Vec<u32> = Vec::new();
                let mut j: usize = 0;
                while j < self.accounts[i].1.len()
                    invariant
                        i < self.accounts@.len(),
                        0 <= j <= self.accounts@[i as int].1@.len(),
                        out@ == self.accounts@[i as int].1@.take(j as int),
                    decreases self.accounts@[i as int].1@.len() - j,
                {
                    proof {
                        assert(self.accounts@[i as int].1@.take(j + 1)
                            =~= self.accounts@[i as int].1@.take(j as int).push(
                            self.accounts@[i as int].1@[j as int],
                        ));
                    }
                    out.push(self.accounts[i].1[j]);
                    j = j + 1;
                }
                proof {
                    assert(self.accounts@[i as int].1@.take(
                        self.accounts@[i as int].1@.len() as int,
                    ) =~= self.accounts@[i as int].1@);
                    assert(self.model()[i as int] == (
                        self.accounts@[i as int].0@,
                        self.accounts@[i as int].1@,
                    ));
                }
                Some(out)
            },
            None => None,
        }
    }
}

} // verus!
