//! The application catalog: lookup by id, key, or secret, with a JSON-file
//! canonical serialization handled as bytes (the caller owns the file).

use vstd::prelude::*;
use crate::app::App;
use crate::bytestr;
use crate::errors::FastSocketError;
use crate::json;
use crate::json::{Json, JsonValue};
use crate::names;
use crate::app_manager::AppManager;
use crate::payload::spec_lookup;

verus! {

/// Model of one catalog record.
pub ghost struct AppSpec {
    pub id: Seq<u8>,
    pub key: Seq<u8>,
    pub secret: Seq<u8>,
    pub name: Seq<u8>,
    pub host: Seq<u8>,
    pub path: Seq<u8>,
    pub capacity: u64,
    pub connection_count: u64,
    pub flags: u8,
}

impl View for App {
    type V = AppSpec;

    open spec fn view(&self) -> AppSpec {
        AppSpec {
            id: self.id@,
            key: self.key@,
            secret: self.secret@,
            name: self.name@,
            host: self.host@,
            path: self.path@,
            capacity: self.capacity,
            connection_count: self.connection_count,
            flags: self.flags,
        }
    }
}

impl AppSpec {
    /// Validity of a record: the mirror of `App::wf` on the model.
    pub open spec fn wf(&self) -> bool {
        &&& self.id.len() > 0
        &&& self.key.len() > 0
        &&& self.secret.len() > 0
        &&& self.name.len() > 0
        &&& self.host.len() > 0
        &&& self.path.len() > 0
        &&& self.capacity > 0
        &&& self.connection_count <= self.capacity
    }
}

pub open spec fn view_apps(apps: Seq<App>) -> Seq<AppSpec>
    decreases apps,
{
    if apps.len() == 0 {
        Seq::empty()
    } else {
        seq![apps[0]@] + view_apps(apps.subrange(1, apps.len() as int))
    }
}

pub broadcast proof fn lemma_view_apps_index(apps: Seq<App>)
    ensures
        (#[trigger] view_apps(apps)).len() == apps.len(),
        forall|i: int| 0 <= i < apps.len() ==> view_apps(apps)[i] == apps[i]@,
    decreases apps,
{
    if apps.len() > 0 {
        let tail = apps.subrange(1, apps.len() as int);
        lemma_view_apps_index(tail);
        assert forall|i: int| 0 <= i < apps.len() implies view_apps(apps)[i] == apps[i]@ by {
            if i > 0 {
                assert(view_apps(apps)[i] == view_apps(tail)[i - 1]);
                assert(tail[i - 1] == apps[i]);
            }
        }
    }
}

/// The id-keyed catalog with its two secondary indices and a dirty flag.
/// The indices run in lock step with the primary list: entry `i` of each
/// index names the key (or secret) and id of record `i`.
pub struct JsonAppManager {
    apps: Vec<App>,
    by_key: Vec<(Vec<u8>, Vec<u8>)>,
    by_secret: Vec<(Vec<u8>, Vec<u8>)>,
    dirty: bool,
}

/// Index of the first record with the given id, if any.
pub open spec fn spec_find_idx(apps: Seq<AppSpec>, id: Seq<u8>) -> Option<int> {
    if exists|i: int| 0 <= i < apps.len() && apps[i].id == id {
        Some(choose|i: int| 0 <= i < apps.len() && apps[i].id == id)
    } else {
        None
    }
}

/// Insert a record: replace the record with the same id, or append.
pub open spec fn spec_insert_app(apps: Seq<AppSpec>, a: AppSpec) -> Seq<AppSpec> {
    match spec_find_idx(apps, a.id) {
        Some(i) => apps.update(i, a),
        None => apps.push(a),
    }
}

impl JsonAppManager {
    /// The models of the records, in catalog order.
    pub closed spec fn view_catalog(&self) -> Seq<AppSpec> {
        view_apps(self.apps@)
    }

    pub closed spec fn spec_dirty(&self) -> bool {
        self.dirty
    }

    /// Internal consistency: records valid, ids unique, and both secondary
    /// indices resolving each record's key and secret back to its id.
    pub closed spec fn wf(&self) -> bool {
        &&& forall|i: int| 0 <= i < self.apps@.len() ==> (#[trigger] self.apps@[i])@.wf()
        &&& forall|i: int, j: int|
            0 <= i < j < self.apps@.len() ==> self.apps@[i]@.id != self.apps@[j]@.id
        &&& self.by_key@.len() == self.apps@.len()
        &&& self.by_secret@.len() == self.apps@.len()
        &&& forall|i: int|
            0 <= i < self.apps@.len() ==> (#[trigger] self.by_key@[i]).0@ == self.apps@[i]@.key
                && self.by_key@[i].1@ == self.apps@[i]@.id
        &&& forall|i: int|
            0 <= i < self.apps@.len() ==> (#[trigger] self.by_secret@[i]).0@
                == self.apps@[i]@.secret && self.by_secret@[i].1@ == self.apps@[i]@.id
    }

    /// An empty catalog.
    pub fn empty() -> (r: JsonAppManager)
        ensures
            r.wf(),
            r.view_catalog() == Seq::<AppSpec>::empty(),
            !r.spec_dirty(),
    {
        let r = JsonAppManager {
            apps: Vec::new(),
            by_key: Vec::new(),
            by_secret: Vec::new(),
            dirty: false,
        };
        proof {
            assert(view_apps(r.apps@) =~= Seq::<AppSpec>::empty());
        }
        r
    }

    fn find_index(&self, id: &[u8]) -> (r: Option<usize>)
        requires
            self.wf(),
        ensures
            match r {
                Some(i) => i < self.view_catalog().len() && self.view_catalog()[i as int].id
                    == id@ && spec_find_idx(self.view_catalog(), id@) == Some(i as int),
                None => spec_find_idx(self.view_catalog(), id@) is None,
            },
    {
        proof {
            lemma_view_apps_index(self.apps@);
        }
        let n = self.apps.len();
        let mut i: usize = 0;
        while i < n
            invariant
                i <= n,
                n == self.apps@.len(),
                self.wf(),
                view_apps(self.apps@).len() == n,
                forall|j: int| 0 <= j < n ==> view_apps(self.apps@)[j] == self.apps@[j]@,
                forall|j: int| 0 <= j < i ==> view_apps(self.apps@)[j].id != id@,
            decreases n - i,
        {
            if bytestr::bytes_eq(self.apps[i].id.as_slice(), id) {
                proof {
                    let cat = self.view_catalog();
                    assert(cat[i as int].id == id@);
                    let k = choose|k: int| 0 <= k < cat.len() && cat[k].id == id@;
                    if k != i {
                        assert(self.apps@[k]@.id == self.apps@[i as int]@.id);
                    }
                }
                return Some(i);
            }
            i = i + 1;
        }
        proof {
            assert forall|j: int|
                0 <= j < self.view_catalog().len() implies self.view_catalog()[j].id != id@ by {}
        }
        None
    }

    /// The record with the given id, if any.
    pub fn find(&self, id: &[u8]) -> (r: Option<&App>)
        requires
            self.wf(),
        ensures
            match r {
                Some(app) => spec_find_idx(self.view_catalog(), id@) matches Some(i)
                    && self.view_catalog()[i] == app@ && app@.id == id@,
                None => spec_find_idx(self.view_catalog(), id@) is None,
            },
    {
        proof {
            lemma_view_apps_index(self.apps@);
        }
        match self.find_index(id) {
            Some(i) => Some(&self.apps[i]),
            None => None,
        }
    }

    /// The first record whose key matches, if any, found through the key
    /// index.
    pub fn find_by_key(&self, key: &[u8]) -> (r: Option<&App>)
        requires
            self.wf(),
        ensures
            match r {
                Some(app) => exists|i: int|
                    0 <= i < self.view_catalog().len() && (#[trigger] self.view_catalog()[i]).key
                        == key@ && self.view_catalog()[i] == app@,
                None => forall|i: int|
                    0 <= i < self.view_catalog().len() ==> (#[trigger] self.view_catalog()[i]).key
                        != key@,
            },
    {
        proof {
            lemma_view_apps_index(self.apps@);
        }
        let n = self.by_key.len();
        let mut i: usize = 0;
        while i < n
            invariant
                i <= n,
                self.wf(),
                n == self.apps@.len(),
                view_apps(self.apps@).len() == n,
                forall|j: int| 0 <= j < n ==> view_apps(self.apps@)[j] == self.apps@[j]@,
                forall|j: int| 0 <= j < i ==> view_apps(self.apps@)[j].key != key@,
            decreases n - i,
        {
            if bytestr::bytes_eq(self.by_key[i].0.as_slice(), key) {
                let id = bytestr::to_vec(self.by_key[i].1.as_slice());
                let r = self.find(id.as_slice());
                match r {
                    Some(app) => {
                        return Some(app);
                    },
                    None => {
                        proof {
                            assert(self.view_catalog()[i as int].id == id@);
                            assert(spec_find_idx(self.view_catalog(), id@) is None);
                        }
                        // unreachable: the index always resolves
                        return None;
                    },
                }
            }
            i = i + 1;
        }
        None
    }

    /// The first record whose secret matches, if any, found through the
    /// secret index.
    pub fn find_by_secret(&self, secret: &[u8]) -> (r: Option<&App>)
        requires
            self.wf(),
        ensures
            match r {
                Some(app) => exists|i: int|
                    0 <= i < self.view_catalog().len() && (#[trigger] self.view_catalog()[i]).secret
                        == secret@ && self.view_catalog()[i] == app@,
                None => forall|i: int|
                    0 <= i < self.view_catalog().len() ==> (
                    #[trigger] self.view_catalog()[i]).secret != secret@,
            },
    {
        proof {
            lemma_view_apps_index(self.apps@);
        }
        let n = self.by_secret.len();
        let mut i: usize = 0;
        while i < n
            invariant
                i <= n,
                self.wf(),
                n == self.apps@.len(),
                view_apps(self.apps@).len() == n,
                forall|j: int| 0 <= j < n ==> view_apps(self.apps@)[j] == self.apps@[j]@,
                forall|j: int| 0 <= j < i ==> view_apps(self.apps@)[j].secret != secret@,
            decreases n - i,
        {
            if bytestr::bytes_eq(self.by_secret[i].0.as_slice(), secret) {
                let id = bytestr::to_vec(self.by_secret[i].1.as_slice());
                let r = self.find(id.as_slice());
                match r {
                    Some(app) => {
                        return Some(app);
                    },
                    None => {
                        proof {
                            assert(self.view_catalog()[i as int].id == id@);
                            assert(spec_find_idx(self.view_catalog(), id@) is None);
                        }
                        // unreachable: the index always resolves
                        return None;
                    },
                }
            }
            i = i + 1;
        }
        None
    }

    /// Insert or replace by id, keeping both indices in lock step.
    fn insert_app(&mut self, app: App)
        requires
            old(self).wf(),
            app@.wf(),
        ensures
            final(self).wf(),
            final(self).view_catalog() == spec_insert_app(old(self).view_catalog(), app@),
            final(self).spec_dirty() == old(self).spec_dirty(),
    {
        proof {
            lemma_view_apps_index(self.apps@);
        }
        let key = bytestr::to_vec(app.key.as_slice());
        let secret = bytestr::to_vec(app.secret.as_slice());
        let id = bytestr::to_vec(app.id.as_slice());
        let ghost before = view_apps(self.apps@);
        match self.find_index(app.id.as_slice()) {
            Some(i) => {
                proof {
                    assert(app@.id == old(self).apps@[i as int]@.id);
                }
                self.apps.set(i, app);
                self.by_key.set(i, (key, bytestr::to_vec(id.as_slice())));
                self.by_secret.set(i, (secret, id));
                proof {
                    lemma_view_apps_index(self.apps@);
                    assert(view_apps(self.apps@) =~= spec_insert_app(before, self.apps@[i as int]@));
                    let olds = old(self).apps@;
                    assert forall|k: int| 0 <= k < self.apps@.len() implies #[trigger] self.apps@[
                        k
                    ]@.id == olds[k]@.id by {}
                    assert forall|p: int, q: int|
                        0 <= p < q < self.apps@.len() implies self.apps@[p]@.id != self.apps@[
                        q
                    ]@.id by {
                        assert(olds[p]@.id != olds[q]@.id);
                    }
                }
            },
            None => {
                self.apps.push(app);
                self.by_key.push((key, bytestr::to_vec(id.as_slice())));
                self.by_secret.push((secret, id));
                proof {
                    lemma_view_apps_index(self.apps@);
                    let n = self.apps@.len() - 1;
                    assert(view_apps(self.apps@) =~= spec_insert_app(before, self.apps@[n]@));
                    let olds = old(self).apps@;
                    assert forall|p: int, q: int|
                        0 <= p < q < self.apps@.len() implies self.apps@[p]@.id != self.apps@[
                        q
                    ]@.id by {
                        if q < n {
                            assert(olds[p]@.id != olds[q]@.id);
                        } else {
                            assert(before[p].id != self.apps@[n]@.id);
                        }
                    }
                }
            },
        }
    }

    /// Register a record; an existing record with the same id is replaced.
    pub fn add(&mut self, app: App)
        requires
            old(self).wf(),
            app@.wf(),
        ensures
            final(self).wf(),
            final(self).view_catalog() == spec_insert_app(old(self).view_catalog(), app@),
            final(self).spec_dirty(),
    {
        self.insert_app(app);
        self.dirty = true;
    }

    /// Replace a record (or register it when its id is new), refreshing the
    /// secondary indices.
    pub fn update(&mut self, app: App)
        requires
            old(self).wf(),
            app@.wf(),
        ensures
            final(self).wf(),
            final(self).view_catalog() == spec_insert_app(old(self).view_catalog(), app@),
            final(self).spec_dirty(),
    {
        self.insert_app(app);
        self.dirty = true;
    }

    /// Drop the record with the given id; says whether one was there.
    pub fn remove(&mut self, id: &[u8]) -> (r: bool)
        requires
            old(self).wf(),
        ensures
            final(self).wf(),
            r == (spec_find_idx(old(self).view_catalog(), id@) is Some),
            match spec_find_idx(old(self).view_catalog(), id@) {
                Some(i) => final(self).view_catalog() == old(self).view_catalog().remove(i)
                    && final(self).spec_dirty(),
                None => final(self).view_catalog() == old(self).view_catalog()
                    && final(self).spec_dirty() == old(self).spec_dirty(),
            },
    {
        proof {
            lemma_view_apps_index(self.apps@);
        }
        match self.find_index(id) {
            Some(i) => {
                self.apps.remove(i);
                self.by_key.remove(i);
                self.by_secret.remove(i);
                self.dirty = true;
                proof {
                    lemma_view_apps_index(self.apps@);
                    assert(view_apps(self.apps@) =~= view_apps(old(self).apps@).remove(i as int));
                }
                true
            },
            None => false,
        }
    }

    /// Zero every record's connection gauge: at process start no connection
    /// is live yet, whatever the backing file carried.
    #[verifier::loop_isolation(false)]
    pub fn reset_connection_counts(&mut self)
        requires
            old(self).wf(),
        ensures
            final(self).wf(),
            final(self).spec_dirty() == old(self).spec_dirty(),
            final(self).view_catalog().len() == old(self).view_catalog().len(),
            forall|i: int|
                0 <= i < old(self).view_catalog().len() ==> #[trigger] final(self).view_catalog()[
                    i
                ] == (AppSpec { connection_count: 0, ..old(self).view_catalog()[i] }),
    {
        proof {
            lemma_view_apps_index(self.apps@);
        }
        let n = self.apps.len();
        let mut i: usize = 0;
        while i < n
            invariant
                i <= n,
                n == self.apps@.len(),
                self.wf(),
                view_apps(self.apps@).len() == n,
                forall|j: int| 0 <= j < n ==> view_apps(self.apps@)[j] == self.apps@[j]@,
                self.spec_dirty() == old(self).spec_dirty(),
                forall|j: int|
                    i <= j < n ==> #[trigger] view_apps(self.apps@)[j] == old(
                        self,
                    ).view_catalog()[j],
                forall|j: int|
                    0 <= j < i ==> #[trigger] view_apps(self.apps@)[j] == (AppSpec {
                        connection_count: 0,
                        ..old(self).view_catalog()[j]
                    }),
            decreases n - i,
        {
            let ghost pre = self.apps@;
            let mut app = self.apps[i].to_app();
            app.connection_count = 0;
            self.apps.set(i, app);
            proof {
                lemma_view_apps_index(pre);
                lemma_view_apps_index(self.apps@);
                assert forall|p: int, q: int|
                    0 <= p < q < self.apps@.len() implies self.apps@[p]@.id != self.apps@[
                    q
                ]@.id by {
                    assert(self.apps@[p]@.id == pre[p]@.id && self.apps@[q]@.id == pre[q]@.id);
                }
                assert(view_apps(pre)[i as int] == old(self).view_catalog()[i as int]);
                assert(pre[i as int]@ == old(self).view_catalog()[i as int]);
                assert(self.apps@[i as int]@ == (AppSpec {
                    connection_count: 0,
                    ..old(self).view_catalog()[i as int]
                }));
                assert forall|j: int|
                    0 <= j < n && j != i implies #[trigger] view_apps(self.apps@)[j] == view_apps(
                    pre,
                )[j] by {
                    assert(self.apps@[j] == pre[j]);
                }
            }
            i = i + 1;
        }
    }

    /// Bump the connection gauge of the record with the given id; reports
    /// whether the record exists and had room.
    pub fn increment_connection_count(&mut self, id: &[u8]) -> (r: bool)
        requires
            old(self).wf(),
        ensures
            final(self).wf(),
            final(self).spec_dirty() == old(self).spec_dirty(),
            match spec_find_idx(old(self).view_catalog(), id@) {
                Some(i) => {
                    &&& (r <==> old(self).view_catalog()[i].connection_count < old(self).view_catalog()[i].capacity)
                    &&& (r ==> final(self).view_catalog() == old(self).view_catalog().update(
                        i,
                        AppSpec {
                            connection_count: (old(self).view_catalog()[i].connection_count
                                + 1) as u64,
                            ..old(self).view_catalog()[i]
                        },
                    ))
                    &&& (!r ==> final(self).view_catalog() == old(self).view_catalog())
                },
                None => !r && final(self).view_catalog() == old(self).view_catalog(),
            },
    {
        proof {
            lemma_view_apps_index(self.apps@);
        }
        match self.find_index(id) {
            Some(i) => {
                if self.apps[i].connection_count < self.apps[i].capacity {
                    let mut app = self.apps[i].to_app();
                    app.increment_connection_count();
                    self.apps.set(i, app);
                    proof {
                        lemma_view_apps_index(self.apps@);
                        assert(view_apps(self.apps@) =~= view_apps(old(self).apps@).update(
                            i as int,
                            self.apps@[i as int]@,
                        ));
                        assert(self.apps@[i as int]@ == AppSpec {
                            connection_count: (old(self).view_catalog()[
                                i as int
                            ].connection_count + 1) as u64,
                            ..old(self).view_catalog()[i as int]
                        });
                    }
                    true
                } else {
                    false
                }
            },
            None => false,
        }
    }

    /// Lower the connection gauge of the record with the given id; reports
    /// whether the record exists and the gauge was positive.
    pub fn decrement_connection_count(&mut self, id: &[u8]) -> (r: bool)
        requires
            old(self).wf(),
        ensures
            final(self).wf(),
            final(self).spec_dirty() == old(self).spec_dirty(),
            match spec_find_idx(old(self).view_catalog(), id@) {
                Some(i) => {
                    &&& (r <==> old(self).view_catalog()[i].connection_count > 0)
                    &&& (r ==> final(self).view_catalog() == old(self).view_catalog().update(
                        i,
                        AppSpec {
                            connection_count: (old(self).view_catalog()[i].connection_count
                                - 1) as u64,
                            ..old(self).view_catalog()[i]
                        },
                    ))
                    &&& (!r ==> final(self).view_catalog() == old(self).view_catalog())
                },
                None => !r && final(self).view_catalog() == old(self).view_catalog(),
            },
    {
        proof {
            lemma_view_apps_index(self.apps@);
        }
        match self.find_index(id) {
            Some(i) => {
                if self.apps[i].connection_count > 0 {
                    let mut app = self.apps[i].to_app();
                    app.decrement_connection_count();
                    self.apps.set(i, app);
                    proof {
                        lemma_view_apps_index(self.apps@);
                        assert(view_apps(self.apps@) =~= view_apps(old(self).apps@).update(
                            i as int,
                            self.apps@[i as int]@,
                        ));
                        assert(self.apps@[i as int]@ == AppSpec {
                            connection_count: (old(self).view_catalog()[
                                i as int
                            ].connection_count - 1) as u64,
                            ..old(self).view_catalog()[i as int]
                        });
                    }
                    true
                } else {
                    false
                }
            },
            None => false,
        }
    }
}



impl crate::app_manager::AppManager for JsonAppManager {
    open spec fn catalog(&self) -> Seq<AppSpec> {
        self.view_catalog()
    }

    open spec fn manager_wf(&self) -> bool {
        self.wf()
    }

    fn find(&self, id: &[u8]) -> (r: Option<&App>) {
        JsonAppManager::find(self, id)
    }

    fn find_by_key(&self, key: &[u8]) -> (r: Option<&App>) {
        let r = JsonAppManager::find_by_key(self, key);
        proof {
            match r {
                Some(app) => {
                    let i = choose|i: int|
                        0 <= i < self.view_catalog().len() && (#[trigger] self.view_catalog()[
                            i
                        ]).key == key@ && self.view_catalog()[i] == app@;
                    assert((#[trigger] self.catalog()[i]).key == key@ && self.catalog()[i]
                        == app@);
                },
                None => {
                    assert forall|i: int|
                        0 <= i < self.catalog().len() implies (#[trigger] self.catalog()[i]).key
                        != key@ by {
                        assert(self.view_catalog()[i].key != key@);
                    }
                },
            }
        }
        r
    }

    fn find_by_secret(&self, secret: &[u8]) -> (r: Option<&App>) {
        let r = JsonAppManager::find_by_secret(self, secret);
        proof {
            match r {
                Some(app) => {
                    let i = choose|i: int|
                        0 <= i < self.view_catalog().len() && (#[trigger] self.view_catalog()[
                            i
                        ]).secret == secret@ && self.view_catalog()[i] == app@;
                    assert((#[trigger] self.catalog()[i]).secret == secret@ && self.catalog()[i]
                        == app@);
                },
                None => {
                    assert forall|i: int|
                        0 <= i < self.catalog().len() implies (#[trigger] self.catalog()[
                        i
                    ]).secret != secret@ by {
                        assert(self.view_catalog()[i].secret != secret@);
                    }
                },
            }
        }
        r
    }

    fn add(&mut self, app: App) {
        JsonAppManager::add(self, app)
    }

    fn update(&mut self, app: App) {
        JsonAppManager::update(self, app)
    }

    fn remove(&mut self, id: &[u8]) -> (r: bool) {
        JsonAppManager::remove(self, id)
    }
}

// ---------------------------------------------------------------------------
// Canonical serialization and loading
// ---------------------------------------------------------------------------

/// The members of one serialized record, in fixed field order.
pub open spec fn spec_app_entries(a: AppSpec) -> Seq<(Seq<u8>, Json)> {
    seq![
        (names::id(), Json::Str(a.id)),
        (names::key(), Json::Str(a.key)),
        (names::secret(), Json::Str(a.secret)),
        (names::name(), Json::Str(a.name)),
        (names::host(), Json::Str(a.host)),
        (names::path(), Json::Str(a.path)),
        (names::capacity(), Json::Int(a.capacity as int)),
        (names::connection_count(), Json::Int(a.connection_count as int)),
        (names::flags(), Json::Int(a.flags as int)),
    ]
}

pub open spec fn spec_app_json(a: AppSpec) -> Json {
    Json::Obj(spec_app_entries(a))
}

/// The serialized records, in catalog order.
pub open spec fn map_app_json(apps: Seq<AppSpec>) -> Seq<Json>
    decreases apps,
{
    if apps.len() == 0 {
        Seq::empty()
    } else {
        seq![spec_app_json(apps[0])] + map_app_json(apps.subrange(1, apps.len() as int))
    }
}

pub broadcast proof fn lemma_map_app_json_index(apps: Seq<AppSpec>)
    ensures
        (#[trigger] map_app_json(apps)).len() == apps.len(),
        forall|i: int| 0 <= i < apps.len() ==> map_app_json(apps)[i] == spec_app_json(apps[i]),
    decreases apps,
{
    if apps.len() > 0 {
        let tail = apps.subrange(1, apps.len() as int);
        lemma_map_app_json_index(tail);
        assert forall|i: int|
            0 <= i < apps.len() implies map_app_json(apps)[i] == spec_app_json(apps[i]) by {
            if i > 0 {
                assert(map_app_json(apps)[i] == map_app_json(tail)[i - 1]);
                assert(tail[i - 1] == apps[i]);
            }
        }
    }
}

/// The canonical bytes of a record set: a JSON array of records.
pub open spec fn spec_catalog_ser(apps: Seq<AppSpec>) -> Seq<u8> {
    json::spec_ser(Json::Arr(map_app_json(apps)))
}

/// What one record parses to, if anything: all nine fields present with the
/// right types, strings non-empty, and the gauges within bounds.
pub open spec fn spec_app_of(v: Json) -> Option<AppSpec> {
    match v {
        Json::Obj(kvs) => {
            match (
                spec_lookup(kvs, names::id()),
                spec_lookup(kvs, names::key()),
                spec_lookup(kvs, names::secret()),
                spec_lookup(kvs, names::name()),
                spec_lookup(kvs, names::host()),
                spec_lookup(kvs, names::path()),
                spec_lookup(kvs, names::capacity()),
                spec_lookup(kvs, names::connection_count()),
                spec_lookup(kvs, names::flags()),
            ) {
                (
                    Some(Json::Str(id)),
                    Some(Json::Str(key)),
                    Some(Json::Str(secret)),
                    Some(Json::Str(name)),
                    Some(Json::Str(host)),
                    Some(Json::Str(path)),
                    Some(Json::Int(capacity)),
                    Some(Json::Int(connection_count)),
                    Some(Json::Int(flags)),
                ) => {
                    if id.len() > 0 && key.len() > 0 && secret.len() > 0 && name.len() > 0
                        && host.len() > 0 && path.len() > 0 && 1 <= capacity && 0
                        <= connection_count <= capacity && 0 <= flags <= 255 {
                        Some(
                            AppSpec {
                                id,
                                key,
                                secret,
                                name,
                                host,
                                path,
                                capacity: capacity as u64,
                                connection_count: connection_count as u64,
                                flags: flags as u8,
                            },
                        )
                    } else {
                        None
                    }
                },
                _ => None,
            }
        },
        _ => None,
    }
}

/// What a list of parsed records yields: every record must convert.
pub open spec fn spec_apps_of_list(els: Seq<Json>) -> Option<Seq<AppSpec>>
    decreases els,
{
    if els.len() == 0 {
        Some(Seq::empty())
    } else {
        match spec_app_of(els[0]) {
            Some(a) => match spec_apps_of_list(els.subrange(1, els.len() as int)) {
                Some(rest) => Some(seq![a] + rest),
                None => None,
            },
            None => None,
        }
    }
}

/// What a catalog file's bytes hold: a JSON array of records.
pub open spec fn spec_records_of(s: Seq<u8>) -> Option<Seq<AppSpec>> {
    match json::spec_parse_json(s) {
        Some(v) => match v {
            Json::Arr(els) => spec_apps_of_list(els),
            _ => None,
        },
        None => None,
    }
}

/// The records folded into a catalog: later records replace earlier ones
/// with the same id.
pub open spec fn spec_load_catalog(records: Seq<AppSpec>) -> Seq<AppSpec>
    decreases records,
{
    if records.len() == 0 {
        Seq::empty()
    } else {
        spec_insert_app(
            spec_load_catalog(records.subrange(0, records.len() - 1)),
            records[records.len() - 1],
        )
    }
}

/// The built-in development application registered after every load.
pub open spec fn dev_app_spec() -> AppSpec {
    AppSpec {
        id: names::dev_app(),
        key: names::dev_app(),
        secret: names::dev_secret(),
        name: names::dev_name(),
        host: names::dev_host(),
        path: names::dev_path(),
        capacity: 100,
        connection_count: 0,
        flags: 0,
    }
}

/// The built-in development application as a record.
pub fn dev_app() -> (r: App)
    ensures
        r@ == dev_app_spec(),
        r@.wf(),
{
    App {
        id: names::dev_app_bytes(),
        key: names::dev_app_bytes(),
        secret: names::dev_secret_bytes(),
        name: names::dev_name_bytes(),
        host: names::dev_host_bytes(),
        path: names::dev_path_bytes(),
        capacity: 100,
        connection_count: 0,
        flags: 0,
    }
}

/// Serialize one record.
fn app_to_json(app: &App) -> (r: JsonValue)
    requires
        app@.wf(),
        app@.capacity <= 0x7fffffffffffffff,
    ensures
        r@ == spec_app_json(app@),
{
    let mut kvs: Vec<(Vec<u8>, JsonValue)> = Vec::new();
    kvs.push((names::id_bytes(), JsonValue::Str(bytestr::to_vec(app.id.as_slice()))));
    kvs.push((names::key_bytes(), JsonValue::Str(bytestr::to_vec(app.key.as_slice()))));
    kvs.push((names::secret_bytes(), JsonValue::Str(bytestr::to_vec(app.secret.as_slice()))));
    kvs.push((names::name_bytes(), JsonValue::Str(bytestr::to_vec(app.name.as_slice()))));
    kvs.push((names::host_bytes(), JsonValue::Str(bytestr::to_vec(app.host.as_slice()))));
    kvs.push((names::path_bytes(), JsonValue::Str(bytestr::to_vec(app.path.as_slice()))));
    kvs.push((names::capacity_bytes(), JsonValue::Int(app.capacity as i64)));
    kvs.push((names::connection_count_bytes(), JsonValue::Int(app.connection_count as i64)));
    kvs.push((names::flags_bytes(), JsonValue::Int(app.flags as i64)));
    proof {
        json::lemma_view_obj_index(kvs@);
        assert(json::view_obj(kvs@) =~= spec_app_entries(app@));
    }
    JsonValue::Obj(kvs)
}

/// Parse one record.
fn app_from_json(v: &JsonValue) -> (r: Result<App, FastSocketError>)
    ensures
        match r {
            Ok(app) => spec_app_of(v@) == Some(app@) && app@.wf(),
            Err(_) => spec_app_of(v@) is None,
        },
{
    let kvs = match v {
        JsonValue::Obj(kvs) => kvs,
        _ => {
            return Err(FastSocketError::InvalidAppError);
        },
    };
    let id = match read_str(kvs, names::id_bytes()) {
        Some(s) => s,
        None => {
            return Err(FastSocketError::InvalidAppError);
        },
    };
    let key = match read_str(kvs, names::key_bytes()) {
        Some(s) => s,
        None => {
            return Err(FastSocketError::InvalidAppError);
        },
    };
    let secret = match read_str(kvs, names::secret_bytes()) {
        Some(s) => s,
        None => {
            return Err(FastSocketError::InvalidAppError);
        },
    };
    let name = match read_str(kvs, names::name_bytes()) {
        Some(s) => s,
        None => {
            return Err(FastSocketError::InvalidAppError);
        },
    };
    let host = match read_str(kvs, names::host_bytes()) {
        Some(s) => s,
        None => {
            return Err(FastSocketError::InvalidAppError);
        },
    };
    let path = match read_str(kvs, names::path_bytes()) {
        Some(s) => s,
        None => {
            return Err(FastSocketError::InvalidAppError);
        },
    };
    let capacity = match read_int(kvs, names::capacity_bytes()) {
        Some(i) => i,
        None => {
            return Err(FastSocketError::InvalidAppError);
        },
    };
    let connection_count = match read_int(kvs, names::connection_count_bytes()) {
        Some(i) => i,
        None => {
            return Err(FastSocketError::InvalidAppError);
        },
    };
    let flags = match read_int(kvs, names::flags_bytes()) {
        Some(i) => i,
        None => {
            return Err(FastSocketError::InvalidAppError);
        },
    };
    if !(id.len() > 0 && key.len() > 0 && secret.len() > 0 && name.len() > 0 && host.len() > 0
        && path.len() > 0 && 1 <= capacity && 0 <= connection_count && connection_count
        <= capacity && 0 <= flags && flags <= 255) {
        return Err(FastSocketError::InvalidAppError);
    }
    Ok(
        App {
            id,
            key,
            secret,
            name,
            host,
            path,
            capacity: capacity as u64,
            connection_count: connection_count as u64,
            flags: flags as u8,
        },
    )
}

/// A copied string field of a record.
fn read_str(kvs: &Vec<(Vec<u8>, JsonValue)>, key: Vec<u8>) -> (r: Option<Vec<u8>>)
    ensures
        match r {
            Some(s) => spec_lookup(json::view_obj(kvs@), key@) == Some(Json::Str(s@)),
            None => !(spec_lookup(json::view_obj(kvs@), key@) matches Some(Json::Str(_))),
        },
{
    match crate::payload::lookup(kvs, key.as_slice()) {
        Some(v) => match v {
            JsonValue::Str(s) => Some(bytestr::to_vec(s.as_slice())),
            _ => None,
        },
        None => None,
    }
}

/// An integer field of a record.
fn read_int(kvs: &Vec<(Vec<u8>, JsonValue)>, key: Vec<u8>) -> (r: Option<i64>)
    ensures
        match r {
            Some(i) => spec_lookup(json::view_obj(kvs@), key@) == Some(Json::Int(i as int)),
            None => !(spec_lookup(json::view_obj(kvs@), key@) matches Some(Json::Int(_))),
        },
{
    match crate::payload::lookup(kvs, key.as_slice()) {
        Some(v) => match v {
            JsonValue::Int(i) => Some(*i),
            _ => None,
        },
        None => None,
    }
}

impl JsonAppManager {
    /// Read a catalog from the bytes of its file (a JSON array of records)
    /// and register the built-in development application on top, as a fresh,
    /// clean catalog.
    #[verifier::loop_isolation(false)]
    pub fn new(file: Option<&[u8]>) -> (r: Result<JsonAppManager, FastSocketError>)
        ensures
            match r {
                Ok(m) => {
                    &&& m.wf()
                    &&& !m.spec_dirty()
                    &&& match file {
                        Some(bytes) => spec_records_of(bytes@) matches Some(records)
                            && m.view_catalog() == spec_insert_app(
                            spec_load_catalog(records),
                            dev_app_spec(),
                        ),
                        None => m.view_catalog() == spec_insert_app(
                            Seq::empty(),
                            dev_app_spec(),
                        ),
                    }
                },
                Err(_) => file matches Some(bytes) && spec_records_of(bytes@) is None,
            },
    {
        let mut m = JsonAppManager::empty();
        match file {
            Some(bytes) => {
                let parsed = match json::parse_json(bytes) {
                    Some(v) => v,
                    None => {
                        return Err(FastSocketError::InvalidAppError);
                    },
                };
                let ghost pv = parsed@;
                let els = match parsed {
                    JsonValue::Arr(els) => els,
                    _ => {
                        return Err(FastSocketError::InvalidAppError);
                    },
                };
                proof {
                    json::lemma_view_arr_index(els@);
                    assert(pv == Json::Arr(json::view_arr(els@)));
                    assert(els@.subrange(0, 0) =~= Seq::<JsonValue>::empty());
                    assert(json::view_arr(els@).subrange(0, 0) =~= Seq::<Json>::empty());
                    assert(spec_apps_of_list(Seq::<Json>::empty()) == Some(Seq::<AppSpec>::empty()));
                    assert(spec_load_catalog(Seq::<AppSpec>::empty()) =~= Seq::<AppSpec>::empty());
                }
                let n = els.len();
                let mut i: usize = 0;
                while i < n
                    invariant
                        i <= n,
                        n == els@.len(),
                        json::view_arr(els@).len() == n,
                        forall|j: int|
                            0 <= j < els@.len() ==> json::view_arr(els@)[j] == els@[j]@,
                        m.wf(),
                        !m.spec_dirty(),
                        spec_apps_of_list(json::view_arr(els@).subrange(0, i as int))
                            matches Some(pre) && m.view_catalog() == spec_load_catalog(pre),
                    decreases n - i,
                {
                    let app = match app_from_json(&els[i]) {
                        Ok(a) => a,
                        Err(e) => {
                            proof {
                                lemma_apps_of_list_fails(json::view_arr(els@), i as int);
                            }
                            return Err(e);
                        },
                    };
                    proof {
                        lemma_apps_of_list_extend(json::view_arr(els@), i as int, app@);
                    }
                    m.insert_app(app);
                    i = i + 1;
                }
                proof {
                    assert(json::view_arr(els@).subrange(0, n as int) =~= json::view_arr(els@));
                }
            },
            None => {},
        }
        m.insert_app(dev_app());
        Ok(m)
    }

    /// When the catalog is dirty, hand back the canonical bytes of the
    /// record set and mark it clean; a clean catalog yields nothing. The
    /// caller writes the bytes to the backing file.
    #[verifier::loop_isolation(false)]
    pub fn save(&mut self) -> (r: Option<Vec<u8>>)
        requires
            old(self).wf(),
            forall|i: int|
                0 <= i < old(self).view_catalog().len() ==> (
                #[trigger] old(self).view_catalog()[i]).capacity <= 0x7fffffffffffffff,
        ensures
            final(self).wf(),
            final(self).view_catalog() == old(self).view_catalog(),
            !final(self).spec_dirty(),
            match r {
                Some(b) => old(self).spec_dirty() && b@ == spec_catalog_ser(
                    old(self).view_catalog(),
                ),
                None => !old(self).spec_dirty(),
            },
    {
        if !self.dirty {
            return None;
        }
        proof {
            lemma_view_apps_index(self.apps@);
            assert(view_apps(self.apps@) == old(self).view_catalog());
        }
        let n = self.apps.len();
        let mut els: Vec<JsonValue> = Vec::new();
        let mut i: usize = 0;
        while i < n
            invariant
                i <= n,
                self.wf(),
                n == self.apps@.len(),
                view_apps(self.apps@).len() == n,
                forall|j: int| 0 <= j < n ==> view_apps(self.apps@)[j] == self.apps@[j]@,
                forall|j: int|
                    0 <= j < n ==> (#[trigger] view_apps(self.apps@)[j]).capacity
                        <= 0x7fffffffffffffff,
                els@.len() == i,
                forall|j: int|
                    0 <= j < i ==> els@[j]@ == spec_app_json(view_apps(self.apps@)[j]),
            decreases n - i,
        {
            proof {
                assert(view_apps(self.apps@)[i as int] == self.apps@[i as int]@);
                assert(self.apps@[i as int]@.wf());
            }
            let jv = app_to_json(&self.apps[i]);
            els.push(jv);
            i = i + 1;
        }
        let arr = JsonValue::Arr(els);
        let bytes = arr.to_json_bytes();
        proof {
            json::lemma_view_arr_index(els@);
            lemma_map_app_json_index(view_apps(self.apps@));
            assert(json::view_arr(els@) =~= map_app_json(self.view_catalog()));
        }
        self.dirty = false;
        Some(bytes)
    }
}

/// A well-formed catalog's records carry pairwise distinct ids.
pub proof fn lemma_catalog_ids_unique(m: &JsonAppManager)
    requires
        m.wf(),
    ensures
        forall|i: int, j: int|
            0 <= i < j < m.view_catalog().len() ==> (#[trigger] m.view_catalog()[i]).id != (
            #[trigger] m.view_catalog()[j]).id,
{
    lemma_view_apps_index(m.apps@);
}

/// If a record fails to convert, the whole list fails.
proof fn lemma_apps_of_list_fails(els: Seq<Json>, i: int)
    requires
        0 <= i < els.len(),
        spec_app_of(els[i]) is None,
        spec_apps_of_list(els.subrange(0, i)) is Some,
    ensures
        spec_apps_of_list(els) is None,
    decreases i,
{
    if i == 0 {
        assert(spec_apps_of_list(els) is None);
    } else {
        let tail = els.subrange(1, els.len() as int);
        assert(tail[i - 1] == els[i]);
        assert(els.subrange(0, i).subrange(1, i) =~= tail.subrange(0, i - 1));
        let pre = els.subrange(0, i);
        assert(pre[0] == els[0]);
        match spec_app_of(els[0]) {
            Some(_) => {
                lemma_apps_of_list_fails(tail, i - 1);
            },
            None => {},
        }
    }
}

/// One more convertible record extends the converted prefix.
proof fn lemma_apps_of_list_extend(els: Seq<Json>, i: int, a: AppSpec)
    requires
        0 <= i < els.len(),
        spec_app_of(els[i]) == Some(a),
    ensures
        match spec_apps_of_list(els.subrange(0, i)) {
            Some(pre) => spec_apps_of_list(els.subrange(0, i + 1)) == Some(pre.push(a))
                && spec_load_catalog(pre.push(a)) == spec_insert_app(
                spec_load_catalog(pre),
                a,
            ),
            None => true,
        },
    decreases i,
{
    let pre1 = els.subrange(0, i + 1);
    match spec_apps_of_list(els.subrange(0, i)) {
        Some(pre) => {
            lemma_apps_of_list_push(els, i);
            assert(pre.push(a).subrange(0, pre.len() as int) =~= pre);
            assert(pre.push(a)[pre.len() as int] == a);
        },
        None => {},
    }
}

/// Appending one element to the parsed prefix.
proof fn lemma_apps_of_list_push(els: Seq<Json>, i: int)
    requires
        0 <= i < els.len(),
        spec_app_of(els[i]) is Some,
        spec_apps_of_list(els.subrange(0, i)) is Some,
    ensures
        spec_apps_of_list(els.subrange(0, i + 1)) == Some(
            spec_apps_of_list(els.subrange(0, i))->Some_0.push(spec_app_of(els[i])->Some_0),
        ),
    decreases i,
{
    reveal_with_fuel(spec_apps_of_list, 3);
    let pre = els.subrange(0, i);
    let pre1 = els.subrange(0, i + 1);
    if i == 0 {
        assert(pre1 =~= seq![els[0]]);
        assert(pre1.subrange(1, 1) =~= Seq::<Json>::empty());
        assert(spec_apps_of_list(pre1) == Some(seq![spec_app_of(els[0])->Some_0]));
        assert(spec_apps_of_list(pre) == Some(Seq::<AppSpec>::empty()));
        assert(seq![spec_app_of(els[0])->Some_0] =~= Seq::<AppSpec>::empty().push(
            spec_app_of(els[0])->Some_0,
        ));
    } else {
        let tail = els.subrange(1, els.len() as int);
        assert(pre[0] == els[0]);
        assert(pre1[0] == els[0]);
        assert(pre.subrange(1, pre.len() as int) =~= tail.subrange(0, i - 1));
        assert(pre1.subrange(1, pre1.len() as int) =~= tail.subrange(0, i));
        assert(tail[i - 1] == els[i]);
        match spec_app_of(els[0]) {
            Some(a0) => {
                match spec_apps_of_list(tail.subrange(0, i - 1)) {
                    Some(trest) => {
                        lemma_apps_of_list_push(tail, i - 1);
                        assert(seq![a0] + trest.push(spec_app_of(els[i])->Some_0) =~= (seq![a0]
                            + trest).push(spec_app_of(els[i])->Some_0));
                    },
                    None => {
                        assert(false);
                    },
                }
            },
            None => {
                assert(false);
            },
        }
    }
}

/// Round trip: parsing the canonical serialization of a set of valid records
/// yields exactly those records.
pub proof fn lemma_catalog_round_trip(apps: Seq<AppSpec>)
    requires
        forall|i: int| 0 <= i < apps.len() ==> (#[trigger] apps[i]).wf(),
        forall|i: int| 0 <= i < apps.len() ==> (#[trigger] apps[i]).capacity <= 0x7fffffffffffffff,
    ensures
        spec_records_of(spec_catalog_ser(apps)) == Some(apps),
{
    lemma_map_app_json_index(apps);
    let els = map_app_json(apps);
    assert(json::json_wf(Json::Arr(els))) by {
        assert forall|j: int| 0 <= j < els.len() implies json::json_wf(#[trigger] els[j]) by {
            lemma_app_json_wf(apps[j]);
        }
    }
    json::lemma_parse_of_ser(Json::Arr(els));
    lemma_apps_of_list_of_map(apps);
}

proof fn lemma_app_json_wf(a: AppSpec)
    requires
        a.wf(),
        a.capacity <= 0x7fffffffffffffff,
    ensures
        json::json_wf(spec_app_json(a)),
{
    let entries = spec_app_entries(a);
    assert forall|j: int| 0 <= j < entries.len() implies json::json_wf(#[trigger] entries[j].1)
        by {}
}

/// Converting the serialized records gives the records back.
proof fn lemma_apps_of_list_of_map(apps: Seq<AppSpec>)
    requires
        forall|i: int| 0 <= i < apps.len() ==> (#[trigger] apps[i]).wf(),
        forall|i: int| 0 <= i < apps.len() ==> (#[trigger] apps[i]).capacity <= 0x7fffffffffffffff,
    ensures
        spec_apps_of_list(map_app_json(apps)) == Some(apps),
    decreases apps,
{
    if apps.len() == 0 {
        assert(map_app_json(apps) =~= Seq::<Json>::empty());
    } else {
        let tail = apps.subrange(1, apps.len() as int);
        lemma_apps_of_list_of_map(tail);
        lemma_app_record_round_trip(apps[0]);
        let els = map_app_json(apps);
        assert(els[0] == spec_app_json(apps[0]));
        assert(els.subrange(1, els.len() as int) =~= map_app_json(tail));
        assert(seq![apps[0]] + tail =~= apps);
    }
}

/// One record round-trips through its JSON form.
proof fn lemma_app_record_round_trip(a: AppSpec)
    requires
        a.wf(),
        a.capacity <= 0x7fffffffffffffff,
    ensures
        spec_app_of(spec_app_json(a)) == Some(a),
{
    let entries = spec_app_entries(a);
    reveal_with_fuel(spec_lookup, 11);
    // walk the nine keys; all are pairwise distinct, by length or by their
    // first byte
    assert(names::id().len() == 2 && names::key().len() == 3 && names::secret().len() == 6
        && names::name().len() == 4 && names::host().len() == 4 && names::path().len() == 4
        && names::capacity().len() == 8 && names::connection_count().len() == 16
        && names::flags().len() == 5);
    assert(names::name()[0] == 0x6e && names::host()[0] == 0x68 && names::path()[0] == 0x70);
    assert(entries.subrange(1, 9).subrange(1, 8) =~= entries.subrange(2, 9));
    assert(entries.subrange(2, 9).subrange(1, 7) =~= entries.subrange(3, 9));
    assert(entries.subrange(3, 9).subrange(1, 6) =~= entries.subrange(4, 9));
    assert(entries.subrange(4, 9).subrange(1, 5) =~= entries.subrange(5, 9));
    assert(entries.subrange(5, 9).subrange(1, 4) =~= entries.subrange(6, 9));
    assert(entries.subrange(6, 9).subrange(1, 3) =~= entries.subrange(7, 9));
    assert(entries.subrange(7, 9).subrange(1, 2) =~= entries.subrange(8, 9));
    assert(entries.subrange(8, 9).subrange(1, 1) =~= Seq::<(Seq<u8>, Json)>::empty());
    assert(spec_lookup(entries, names::id()) == Some(Json::Str(a.id)));
    assert(spec_lookup(entries, names::key()) == Some(Json::Str(a.key)));
    assert(spec_lookup(entries, names::secret()) == Some(Json::Str(a.secret)));
    assert(spec_lookup(entries, names::name()) == Some(Json::Str(a.name)));
    assert(spec_lookup(entries, names::host()) == Some(Json::Str(a.host)));
    assert(spec_lookup(entries, names::path()) == Some(Json::Str(a.path)));
    assert(spec_lookup(entries, names::capacity()) == Some(Json::Int(a.capacity as int)));
    assert(spec_lookup(entries, names::connection_count()) == Some(
        Json::Int(a.connection_count as int),
    ));
    assert(spec_lookup(entries, names::flags()) == Some(Json::Int(a.flags as int)));
}

} // verus!
