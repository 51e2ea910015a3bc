//! The application record: immutable identity, a connection gauge, and
//! feature flags.

use vstd::prelude::*;
use crate::errors::FastSocketError;
use crate::bytestr;

verus! {

/// Flag bit: clients may relay their own events.
pub const CLIENT_MESSAGES_FLAG: u8 = 1;

/// Flag bit: statistics collection is on.
pub const STATISTICS_FLAG: u8 = 2;

/// One application: an identity namespace with a shared secret. All string
/// fields are non-empty and `capacity` is positive; `connection_count` stays
/// between zero and `capacity`.
#[derive(Debug)]
pub struct App {
    pub id: Vec<u8>,
    pub key: Vec<u8>,
    pub secret: Vec<u8>,
    pub name: Vec<u8>,
    pub host: Vec<u8>,
    pub path: Vec<u8>,
    pub capacity: u64,
    pub connection_count: u64,
    pub flags: u8,
}

impl App {
    /// Field validity established at construction and kept for life.
    pub open spec fn wf(&self) -> bool {
        &&& self.id@.len() > 0
        &&& self.key@.len() > 0
        &&& self.secret@.len() > 0
        &&& self.name@.len() > 0
        &&& self.host@.len() > 0
        &&& self.path@.len() > 0
        &&& self.capacity > 0
        &&& self.connection_count <= self.capacity
    }

    /// Validate every field and build the record with a zero gauge. Each
    /// invalid field is reported by its own error, checked in field order.
    pub fn new(
        id: Vec<u8>,
        key: Vec<u8>,
        secret: Vec<u8>,
        name: Vec<u8>,
        host: Vec<u8>,
        path: Vec<u8>,
        capacity: u64,
        flags: u8,
    ) -> (r: Result<App, FastSocketError>)
        ensures
            match r {
                Ok(app) => {
                    &&& app.wf()
                    &&& app.id@ == id@
                    &&& app.key@ == key@
                    &&& app.secret@ == secret@
                    &&& app.name@ == name@
                    &&& app.host@ == host@
                    &&& app.path@ == path@
                    &&& app.capacity == capacity
                    &&& app.flags == flags
                    &&& app.connection_count == 0
                },
                Err(e) => {
                    &&& (id@.len() == 0 || key@.len() == 0 || secret@.len() == 0 || name@.len()
                        == 0 || host@.len() == 0 || path@.len() == 0 || capacity == 0)
                    &&& e == (if id@.len() == 0 {
                        FastSocketError::InvalidAppIdError
                    } else if key@.len() == 0 {
                        FastSocketError::InvalidAppKeyError
                    } else if secret@.len() == 0 {
                        FastSocketError::InvalidAppSecretError
                    } else if name@.len() == 0 {
                        FastSocketError::InvalidAppNameError
                    } else if host@.len() == 0 {
                        FastSocketError::InvalidAppHostError
                    } else if path@.len() == 0 {
                        FastSocketError::InvalidAppPathError
                    } else {
                        FastSocketError::InvalidAppCapacityError
                    })
                },
            },
    {
        if id.len() == 0 {
            return Err(FastSocketError::InvalidAppIdError);
        }
        if key.len() == 0 {
            return Err(FastSocketError::InvalidAppKeyError);
        }
        if secret.len() == 0 {
            return Err(FastSocketError::InvalidAppSecretError);
        }
        if name.len() == 0 {
            return Err(FastSocketError::InvalidAppNameError);
        }
        if host.len() == 0 {
            return Err(FastSocketError::InvalidAppHostError);
        }
        if path.len() == 0 {
            return Err(FastSocketError::InvalidAppPathError);
        }
        if capacity == 0 {
            return Err(FastSocketError::InvalidAppCapacityError);
        }
        Ok(App { id, key, secret, name, host, path, capacity, flags, connection_count: 0 })
    }

    /// The record behind a shared reference-counted pointer.
    pub fn arc(self) -> (r: std::sync::Arc<App>)
        ensures
            *r == self,
    {
        std::sync::Arc::new(self)
    }

    /// An identical copy of the record.
    pub fn to_app(&self) -> (r: App)
        ensures
            r.id@ == self.id@,
            r.key@ == self.key@,
            r.secret@ == self.secret@,
            r.name@ == self.name@,
            r.host@ == self.host@,
            r.path@ == self.path@,
            r.capacity == self.capacity,
            r.connection_count == self.connection_count,
            r.flags == self.flags,
    {
        App {
            id: bytestr::to_vec(self.id.as_slice()),
            key: bytestr::to_vec(self.key.as_slice()),
            secret: bytestr::to_vec(self.secret.as_slice()),
            name: bytestr::to_vec(self.name.as_slice()),
            host: bytestr::to_vec(self.host.as_slice()),
            path: bytestr::to_vec(self.path.as_slice()),
            capacity: self.capacity,
            connection_count: self.connection_count,
            flags: self.flags,
        }
    }

    pub fn get_id(&self) -> (r: &Vec<u8>)
        ensures
            r@ == self.id@,
    {
        &self.id
    }

    pub fn get_key(&self) -> (r: &Vec<u8>)
        ensures
            r@ == self.key@,
    {
        &self.key
    }

    pub fn get_secret(&self) -> (r: &Vec<u8>)
        ensures
            r@ == self.secret@,
    {
        &self.secret
    }

    pub fn get_name(&self) -> (r: &Vec<u8>)
        ensures
            r@ == self.name@,
    {
        &self.name
    }

    pub fn get_host(&self) -> (r: &Vec<u8>)
        ensures
            r@ == self.host@,
    {
        &self.host
    }

    pub fn get_path(&self) -> (r: &Vec<u8>)
        ensures
            r@ == self.path@,
    {
        &self.path
    }

    pub fn get_capacity(&self) -> (r: u64)
        ensures
            r == self.capacity,
    {
        self.capacity
    }

    pub fn set_capacity(&mut self, capacity: u64)
        requires
            capacity >= old(self).connection_count,
            capacity > 0,
        ensures
            final(self).capacity == capacity,
            final(self).id == old(self).id,
            final(self).key == old(self).key,
            final(self).secret == old(self).secret,
            final(self).name == old(self).name,
            final(self).host == old(self).host,
            final(self).path == old(self).path,
            final(self).connection_count == old(self).connection_count,
            final(self).flags == old(self).flags,
            old(self).wf() ==> final(self).wf(),
    {
        self.capacity = capacity;
    }

    pub fn get_connection_count(&self) -> (r: u64)
        ensures
            r == self.connection_count,
    {
        self.connection_count
    }

    /// One more live connection. The caller has checked the capacity.
    pub fn increment_connection_count(&mut self)
        requires
            old(self).connection_count < old(self).capacity,
        ensures
            final(self).connection_count == old(self).connection_count + 1,
            final(self).id == old(self).id,
            final(self).key == old(self).key,
            final(self).secret == old(self).secret,
            final(self).name == old(self).name,
            final(self).host == old(self).host,
            final(self).path == old(self).path,
            final(self).capacity == old(self).capacity,
            final(self).flags == old(self).flags,
            old(self).wf() ==> final(self).wf(),
    {
        self.connection_count = self.connection_count + 1;
    }

    /// One less live connection. The caller keeps the gauge non-negative.
    pub fn decrement_connection_count(&mut self)
        requires
            old(self).connection_count > 0,
        ensures
            final(self).connection_count == old(self).connection_count - 1,
            final(self).id == old(self).id,
            final(self).key == old(self).key,
            final(self).secret == old(self).secret,
            final(self).name == old(self).name,
            final(self).host == old(self).host,
            final(self).path == old(self).path,
            final(self).capacity == old(self).capacity,
            final(self).flags == old(self).flags,
            old(self).wf() ==> final(self).wf(),
    {
        self.connection_count = self.connection_count - 1;
    }

    pub open spec fn spec_client_messages_enabled(&self) -> bool {
        self.flags & CLIENT_MESSAGES_FLAG != 0
    }

    pub open spec fn spec_statistics_enabled(&self) -> bool {
        self.flags & STATISTICS_FLAG != 0
    }

    pub fn enable_client_messages(&mut self, enabled: bool)
        ensures
            final(self).spec_client_messages_enabled() == enabled,
            final(self).spec_statistics_enabled() == old(self).spec_statistics_enabled(),
            final(self).id == old(self).id,
            final(self).key == old(self).key,
            final(self).secret == old(self).secret,
            final(self).name == old(self).name,
            final(self).host == old(self).host,
            final(self).path == old(self).path,
            final(self).capacity == old(self).capacity,
            final(self).connection_count == old(self).connection_count,
            old(self).wf() ==> final(self).wf(),
    {
        let ghost before = self.flags;
        if enabled {
            self.flags = self.flags | CLIENT_MESSAGES_FLAG;
            proof {
                assert((before | 1u8) & 1u8 != 0) by (bit_vector);
                assert((before | 1u8) & 2u8 == before & 2u8) by (bit_vector);
            }
        } else {
            self.flags = self.flags & !CLIENT_MESSAGES_FLAG;
            proof {
                assert((before & !1u8) & 1u8 == 0) by (bit_vector);
                assert((before & !1u8) & 2u8 == before & 2u8) by (bit_vector);
            }
        }
    }

    pub fn is_client_messages_enabled(&self) -> (r: bool)
        ensures
            r == self.spec_client_messages_enabled(),
    {
        self.flags & CLIENT_MESSAGES_FLAG != 0
    }

    pub fn enable_statistics(&mut self, enabled: bool)
        ensures
            final(self).spec_statistics_enabled() == enabled,
            final(self).spec_client_messages_enabled() == old(self).spec_client_messages_enabled(),
            final(self).id == old(self).id,
            final(self).key == old(self).key,
            final(self).secret == old(self).secret,
            final(self).name == old(self).name,
            final(self).host == old(self).host,
            final(self).path == old(self).path,
            final(self).capacity == old(self).capacity,
            final(self).connection_count == old(self).connection_count,
            old(self).wf() ==> final(self).wf(),
    {
        let ghost before = self.flags;
        if enabled {
            self.flags = self.flags | STATISTICS_FLAG;
            proof {
                assert((before | 2u8) & 2u8 != 0) by (bit_vector);
                assert((before | 2u8) & 1u8 == before & 1u8) by (bit_vector);
            }
        } else {
            self.flags = self.flags & !STATISTICS_FLAG;
            proof {
                assert((before & !2u8) & 2u8 == 0) by (bit_vector);
                assert((before & !2u8) & 1u8 == before & 1u8) by (bit_vector);
            }
        }
    }

    pub fn is_statistics_enabled(&self) -> (r: bool)
        ensures
            r == self.spec_statistics_enabled(),
    {
        self.flags & STATISTICS_FLAG != 0
    }
}

} // verus!
