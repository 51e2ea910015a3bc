//! The catalog interface: lookup by id, key, or secret, and registration,
//! polymorphic over the storage backend.

use vstd::prelude::*;
use crate::app::App;
use crate::json_app_manager::{spec_find_idx, spec_insert_app, AppSpec};

verus! {

/// What every application catalog offers: a record set with primary lookup
/// by id, secondary lookups by key and secret, and registration that keeps
/// them consistent.
pub trait AppManager: Sized {
    /// The records, in catalog order.
    spec fn catalog(&self) -> Seq<AppSpec>;

    /// The backend's internal consistency.
    spec fn manager_wf(&self) -> bool;

    /// The record with the given id, if any.
    fn find(&self, id: &[u8]) -> (r: Option<&App>)
        requires
            self.manager_wf(),
        ensures
            match r {
                Some(app) => spec_find_idx(self.catalog(), id@) matches Some(i) && self.catalog()[
                    i
                ] == app@ && app@.id == id@,
                None => spec_find_idx(self.catalog(), id@) is None,
            },
    ;

    /// The record with the given id, if any; the primary lookup under its
    /// other name.
    fn find_by_id(&self, id: &[u8]) -> (r: Option<&App>)
        requires
            self.manager_wf(),
        ensures
            match r {
                Some(app) => spec_find_idx(self.catalog(), id@) matches Some(i) && self.catalog()[
                    i
                ] == app@ && app@.id == id@,
                None => spec_find_idx(self.catalog(), id@) is None,
            },
    {
        self.find(id)
    }

    /// The first record whose key matches, if any.
    fn find_by_key(&self, key: &[u8]) -> (r: Option<&App>)
        requires
            self.manager_wf(),
        ensures
            match r {
                Some(app) => exists|i: int|
                    0 <= i < self.catalog().len() && (#[trigger] self.catalog()[i]).key == key@
                        && self.catalog()[i] == app@,
                None => forall|i: int|
                    0 <= i < self.catalog().len() ==> (#[trigger] self.catalog()[i]).key != key@,
            },
    ;

    /// The first record whose secret matches, if any.
    fn find_by_secret(&self, secret: &[u8]) -> (r: Option<&App>)
        requires
            self.manager_wf(),
        ensures
            match r {
                Some(app) => exists|i: int|
                    0 <= i < self.catalog().len() && (#[trigger] self.catalog()[i]).secret
                        == secret@ && self.catalog()[i] == app@,
                None => forall|i: int|
                    0 <= i < self.catalog().len() ==> (#[trigger] self.catalog()[i]).secret
                        != secret@,
            },
    ;

    /// Register a record; an existing record with the same id is replaced.
    fn add(&mut self, app: App)
        requires
            old(self).manager_wf(),
            app@.wf(),
        ensures
            final(self).manager_wf(),
            final(self).catalog() == spec_insert_app(old(self).catalog(), app@),
    ;

    /// Replace a record (or register a new one), refreshing the lookups.
    fn update(&mut self, app: App)
        requires
            old(self).manager_wf(),
            app@.wf(),
        ensures
            final(self).manager_wf(),
            final(self).catalog() == spec_insert_app(old(self).catalog(), app@),
    ;

    /// Drop the record with the given id; says whether one was there.
    fn remove(&mut self, id: &[u8]) -> (r: bool)
        requires
            old(self).manager_wf(),
        ensures
            final(self).manager_wf(),
            r == (spec_find_idx(old(self).catalog(), id@) is Some),
            match spec_find_idx(old(self).catalog(), id@) {
                Some(i) => final(self).catalog() == old(self).catalog().remove(i),
                None => final(self).catalog() == old(self).catalog(),
            },
    ;
}

} // verus!
