//! Availability signalling.
//!
//! One listener per live connection, keyed by the owning device address.
//! After an insert the cached-data signal fires; after a durable persist
//! the persisted signal fires.  A missed signal loses no data: consumers
//! re-check their buffers on receipt.

use vstd::prelude::*;

use crate::denim_manager::DeviceAddress;

verus! {

/// A waiter for buffer state changes; both callbacks must return promptly
/// and report whether the wake was delivered.
pub trait AvailabilityListener: Sized {
    /// New data was cached for this connection's device.
    fn send_cached(&mut self) -> bool;

    /// Cached data was persisted durably for this connection's device.
    fn send_persisted(&mut self) -> bool;
}

/// The listener registry: at most one listener per device address.
pub struct ListenerRegistry<T: AvailabilityListener> {
    listeners: Vec<(DeviceAddress, T)>,
}

impl<T: AvailabilityListener> ListenerRegistry<T> {
    /// The registered addresses.
    pub closed spec fn addresses(&self) -> Seq<DeviceAddress> {
        self.listeners@.map_values(|p: (DeviceAddress, T)| p.0)
    }

    /// At most one listener per address.
    pub closed spec fn inv(&self) -> bool {
        forall|i: int, j: int|
            0 <= i < j < self.listeners@.len() ==> (#[trigger] self.listeners@[i]).0 != (
            #[trigger] self.listeners@[j]).0
    }

    /// Whether an address has a listener.
    pub open spec fn spec_has(&self, address: DeviceAddress) -> bool {
        exists|i: int| 0 <= i < self.addresses().len() && self.addresses()[i] == address
    }

    pub fn new() -> (r: ListenerRegistry<T>)
        ensures
            r.inv(),
            r.addresses() == Seq::<DeviceAddress>::empty(),
    {
        let r = ListenerRegistry { listeners: Vec::new() };
        proof {
            assert(r.addresses() =~= Seq::<DeviceAddress>::empty());
        }
        r
    }

    /// Register a listener for an address, replacing any earlier one.
    pub fn add_listener(&mut self, address: DeviceAddress, listener: T)
        requires
            old(self).inv(),
        ensures
            final(self).inv(),
            final(self).spec_has(address),
    {
        self.remove_listener(address);
        let ghost mid = *self;
        let ghost before = self.listeners@;
        self.listeners.push((address, listener));
        proof {
            assert(self.addresses()[self.addresses().len() - 1] == address);
            assert forall|i: int, j: int| 0 <= i < j < self.listeners@.len() implies (
            #[trigger] self.listeners@[i]).0 != (#[trigger] self.listeners@[j]).0 by {
                if j + 1 < self.listeners@.len() {
                    assert(self.listeners@[i] == before[i] && self.listeners@[j] == before[j]);
                } else {
                    assert(self.listeners@[i] == before[i]);
                    if before[i].0 == address {
                        assert(mid.addresses()[i] == address);
                        assert(mid.spec_has(address));
                        assert(false);
                    }
                }
            }
        }
    }

    /// Remove the listener for an address, if any.
    pub fn remove_listener(&mut self, address: DeviceAddress)
        requires
            old(self).inv(),
        ensures
            final(self).inv(),
            !final(self).spec_has(address),
    {
        let mut i: usize = 0;
        while i < self.listeners.len()
            invariant
                self.inv(),
                0 <= i <= self.listeners@.len(),
                forall|j: int| 0 <= j < i ==> (#[trigger] self.listeners@[j]).0 != address,
            decreases self.listeners@.len() - i,
        {
            if self.listeners[i].0 == address {
                let ghost before = self.listeners@;
                let _ = self.listeners.remove(i);
                proof {
                    assert forall|a: int, b: int| 0 <= a < b < self.listeners@.len() implies (
                    #[trigger] self.listeners@[a]).0 != (#[trigger] self.listeners@[b]).0 by {
                        let a0 = if a < i {
                            a
                        } else {
                            a + 1
                        };
                        let b0 = if b < i {
                            b
                        } else {
                            b + 1
                        };
                        assert(self.listeners@[a] == before[a0] && self.listeners@[b]
                            == before[b0]);
                    }
                    assert forall|j: int| 0 <= j < self.addresses().len() implies (
                    #[trigger] self.addresses()[j]) != address by {
                        let j0 = if j < i {
                            j
                        } else {
                            j + 1
                        };
                        assert(self.listeners@[j] == before[j0]);
                        if j0 != i && before[j0].0 == address {
                            assert(before[i as int].0 == address);
                            assert(false);
                        }
                    }
                }
                return ;
            }
            i = i + 1;
        }
        proof {
            assert forall|j: int| 0 <= j < self.addresses().len() implies (
            #[trigger] self.addresses()[j]) != address by {
                assert(self.addresses()[j] == self.listeners@[j].0);
            }
        }
    }

    /// Wake the address's listener after an insert; reports whether a
    /// listener was found and its wake delivered.
    pub fn notify_cached(&mut self, address: DeviceAddress) -> (r: bool)
        requires
            old(self).inv(),
        ensures
            final(self).inv(),
            final(self).addresses() == old(self).addresses(),
            !old(self).spec_has(address) ==> r == false,
            r ==> old(self).spec_has(address),
    {
        let mut i: usize = 0;
        while i < self.listeners.len()
            invariant
                self.inv(),
                self.addresses() == old(self).addresses(),
                0 <= i <= self.listeners@.len(),
            decreases self.listeners@.len() - i,
        {
            if self.listeners[i].0 == address {
                proof {
                    assert(old(self).addresses()[i as int] == address);
                    assert(old(self).spec_has(address));
                }
                let ghost before = self.listeners@;
                let (addr, mut listener) = self.listeners.remove(i);
                let woke = listener.send_cached();
                self.listeners.insert(i, (addr, listener));
                proof {
                    assert(self.listeners@.map_values(|p: (DeviceAddress, T)| p.0)
                        =~= before.map_values(|p: (DeviceAddress, T)| p.0));
                    assert forall|a: int, b: int| 0 <= a < b < self.listeners@.len() implies (
                    #[trigger] self.listeners@[a]).0 != (#[trigger] self.listeners@[b]).0 by {
                        assert(self.listeners@[a].0 == before[a].0 && self.listeners@[b].0
                            == before[b].0);
                    }
                }
                return woke;
            }
            i = i + 1;
        }
        false
    }

    /// Wake the address's listener after a durable persist; reports whether
    /// a listener was found and its wake delivered.
    pub fn notify_persisted(&mut self, address: DeviceAddress) -> (r: bool)
        requires
            old(self).inv(),
        ensures
            final(self).inv(),
            final(self).addresses() == old(self).addresses(),
            !old(self).spec_has(address) ==> r == false,
            r ==> old(self).spec_has(address),
    {
        let mut i: usize = 0;
        while i < self.listeners.len()
            invariant
                self.inv(),
                self.addresses() == old(self).addresses(),
                0 <= i <= self.listeners@.len(),
            decreases self.listeners@.len() - i,
        {
            if self.listeners[i].0 == address {
                proof {
                    assert(old(self).addresses()[i as int] == address);
                    assert(old(self).spec_has(address));
                }
                let ghost before = self.listeners@;
                let (addr, mut listener) = self.listeners.remove(i);
                let woke = listener.send_persisted();
                self.listeners.insert(i, (addr, listener));
                proof {
                    assert(self.listeners@.map_values(|p: (DeviceAddress, T)| p.0)
                        =~= before.map_values(|p: (DeviceAddress, T)| p.0));
                    assert forall|a: int, b: int| 0 <= a < b < self.listeners@.len() implies (
                    #[trigger] self.listeners@[a]).0 != (#[trigger] self.listeners@[b]).0 by {
                        assert(self.listeners@[a].0 == before[a].0 && self.listeners@[b].0
                            == before[b].0);
                    }
                }
                return woke;
            }
            i = i + 1;
        }
        false
    }
}

} // verus!
