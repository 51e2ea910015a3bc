//! The connection runtime: a broker that owns the catalog, the channel
//! registry, and the set of live clients, and drives each connection from
//! open through its frames to close. The caller performs the transport work
//! (reads, writes, the HTTP upgrade) and hands frames in as plain values.

use vstd::prelude::*;
use crate::app::App;
use crate::bytestr;
use crate::channel::{view_actions, SendAction, SendActionSpec};
use crate::channel_manager::LocalChannelManager;
use crate::client::{is_valid_socket_id, Client};
use crate::crypto;
use crate::errors::FastSocketError;
use crate::json::{Json, JsonValue};
use crate::json_app_manager::{spec_find_idx, AppSpec, JsonAppManager};
use crate::message::{ClassifiedMessage, MessageFactory};
use crate::names;
use crate::payload::{Payload, PayloadSpec};

verus! {

/// The connections the broker accepts at most, by default.
pub const DEFAULT_MAX_CONNECTIONS: u64 = 10000;

/// The activity timeout the broker announces, in seconds.
pub const ACTIVITY_TIMEOUT: u64 = 30;

/// The frame kinds of the transport, as plain values.
#[derive(Clone, Copy, Debug, PartialEq, Eq, Structural)]
pub enum FrameOpCode {
    Continuation,
    Text,
    Binary,
    Close,
    Ping,
    Pong,
}

/// What the caller must do after a frame was handled: write a payload to a
/// subscriber's transport, or answer a protocol-level pong on this one.
#[derive(Debug)]
pub enum RuntimeAction {
    Send(SendAction),
    Pong,
}

/// Model of a connection identity.
pub ghost struct ClientSpec {
    pub socket_id: Seq<u8>,
    pub public_key: Seq<u8>,
    pub app_id: Seq<u8>,
}

impl View for Client {
    type V = ClientSpec;

    open spec fn view(&self) -> ClientSpec {
        ClientSpec {
            socket_id: self.socket_id@,
            public_key: self.public_key@,
            app_id: self.app_id@,
        }
    }
}

pub open spec fn view_clients(cs: Seq<Client>) -> Seq<ClientSpec>
    decreases cs,
{
    if cs.len() == 0 {
        Seq::empty()
    } else {
        seq![cs[0]@] + view_clients(cs.subrange(1, cs.len() as int))
    }
}

pub broadcast proof fn lemma_view_clients_index(cs: Seq<Client>)
    ensures
        (#[trigger] view_clients(cs)).len() == cs.len(),
        forall|i: int| 0 <= i < cs.len() ==> view_clients(cs)[i] == cs[i]@,
    decreases cs,
{
    if cs.len() > 0 {
        let tail = cs.subrange(1, cs.len() as int);
        lemma_view_clients_index(tail);
        assert forall|i: int| 0 <= i < cs.len() implies view_clients(cs)[i] == cs[i]@ by {
            if i > 0 {
                assert(view_clients(cs)[i] == view_clients(tail)[i - 1]);
                assert(tail[i - 1] == cs[i]);
            }
        }
    }
}

/// How many live clients belong to the application.
pub open spec fn spec_count_clients(cs: Seq<ClientSpec>, app_id: Seq<u8>) -> nat
    decreases cs,
{
    if cs.len() == 0 {
        0
    } else {
        (if cs[0].app_id == app_id {
            1nat
        } else {
            0nat
        }) + spec_count_clients(cs.subrange(1, cs.len() as int), app_id)
    }
}

/// Counting one more client.
pub proof fn lemma_count_push(cs: Seq<ClientSpec>, c: ClientSpec, app_id: Seq<u8>)
    ensures
        spec_count_clients(cs.push(c), app_id) == spec_count_clients(cs, app_id) + (
        if c.app_id == app_id {
            1nat
        } else {
            0nat
        }),
    decreases cs,
{
    reveal_with_fuel(spec_count_clients, 3);
    let q = cs.push(c);
    if cs.len() == 0 {
        assert(q =~= seq![c]);
        assert(cs =~= Seq::<ClientSpec>::empty());
        assert(q.subrange(1, 1) =~= Seq::<ClientSpec>::empty());
    } else {
        lemma_count_push(cs.subrange(1, cs.len() as int), c, app_id);
        assert(q.subrange(1, q.len() as int) =~= cs.subrange(1, cs.len() as int).push(c));
    }
}

/// Counting one client fewer.
pub proof fn lemma_count_remove(cs: Seq<ClientSpec>, i: int, app_id: Seq<u8>)
    requires
        0 <= i < cs.len(),
    ensures
        spec_count_clients(cs, app_id) == spec_count_clients(cs.remove(i), app_id) + (
        if cs[i].app_id == app_id {
            1nat
        } else {
            0nat
        }),
    decreases cs,
{
    let r = cs.remove(i);
    if i == 0 {
        assert(r =~= cs.subrange(1, cs.len() as int));
    } else {
        let tail = cs.subrange(1, cs.len() as int);
        lemma_count_remove(tail, i - 1, app_id);
        assert(r.subrange(1, r.len() as int) =~= tail.remove(i - 1));
        assert(r[0] == cs[0]);
    }
}

/// The broker: catalog, registry, live clients, and the connection cap.
pub struct WebSocket {
    app_manager: JsonAppManager,
    channel_manager: LocalChannelManager,
    clients: Vec<Client>,
    max_connections: u64,
}

impl WebSocket {
    pub closed spec fn spec_clients(&self) -> Seq<ClientSpec> {
        view_clients(self.clients@)
    }

    pub closed spec fn spec_catalog(&self) -> Seq<AppSpec> {
        self.app_manager.view_catalog()
    }

    pub closed spec fn spec_registry(&self) -> Seq<(Seq<u8>, crate::channel::ChannelSpec)> {
        self.channel_manager.view_registry()
    }

    pub closed spec fn spec_max_connections(&self) -> u64 {
        self.max_connections
    }

    /// The broker invariant.
    ///
    /// Live clients have unique socket ids and belong to registered
    /// applications; every application's connection gauge equals the number
    /// of its live clients; and every channel subscriber is a live client.
    pub closed spec fn wf(&self) -> bool {
        &&& self.app_manager.wf()
        &&& self.channel_manager.wf()
        &&& forall|i: int, j: int|
            0 <= i < j < self.spec_clients().len() ==> (#[trigger] self.spec_clients()[i]).socket_id
                != (#[trigger] self.spec_clients()[j]).socket_id
        &&& forall|i: int|
            0 <= i < self.spec_clients().len() ==> spec_find_idx(
                self.spec_catalog(),
                (#[trigger] self.spec_clients()[i]).app_id,
            ) is Some
        &&& forall|a: int|
            0 <= a < self.spec_catalog().len() ==> (#[trigger] self.spec_catalog()[
                a
            ]).connection_count == spec_count_clients(
                self.spec_clients(),
                self.spec_catalog()[a].id,
            )
        &&& forall|e: int, c: int|
            0 <= e < self.spec_registry().len() && 0 <= c < self.spec_registry()[e].1.connections.len()
                ==> exists|k: int|
                0 <= k < self.spec_clients().len() && (#[trigger] self.spec_clients()[
                    k
                ]).socket_id == #[trigger] self.spec_registry()[e].1.connections[c]
    }

    /// How many clients are live in all.
    pub fn live_count(&self) -> (r: usize)
        ensures
            r == self.spec_clients().len(),
    {
        proof {
            lemma_view_clients_index(self.clients@);
        }
        self.clients.len()
    }

    /// A broker over a freshly loaded catalog, with no live connection.
    pub fn new(app_manager: JsonAppManager, max_connections: u64) -> (r: WebSocket)
        requires
            app_manager.wf(),
            forall|a: int|
                0 <= a < app_manager.view_catalog().len() ==> (
                #[trigger] app_manager.view_catalog()[a]).connection_count == 0,
        ensures
            r.wf(),
            r.spec_catalog() == app_manager.view_catalog(),
            r.spec_clients() == Seq::<ClientSpec>::empty(),
            r.spec_registry() == Seq::<(Seq<u8>, crate::channel::ChannelSpec)>::empty(),
            r.spec_max_connections() == max_connections,
    {
        let r = WebSocket {
            app_manager,
            channel_manager: LocalChannelManager::new(),
            clients: Vec::new(),
            max_connections,
        };
        proof {
            assert(view_clients(r.clients@) =~= Seq::<ClientSpec>::empty());
            assert forall|a: int|
                0 <= a < r.spec_catalog().len() implies (#[trigger] r.spec_catalog()[
                a
            ]).connection_count == spec_count_clients(
                r.spec_clients(),
                r.spec_catalog()[a].id,
            ) by {
                assert(spec_count_clients(Seq::<ClientSpec>::empty(), r.spec_catalog()[a].id)
                    == 0);
            }
        }
        r
    }

    /// The `pusher:connection_established` greeting for a fresh socket id.
    pub open spec fn spec_established(socket_id: Seq<u8>) -> PayloadSpec {
        PayloadSpec {
            event: names::connection_established(),
            channel: Seq::empty(),
            data: seq![
                (names::socket_id(), Json::Str(socket_id)),
                (names::activity_timeout(), Json::Int(ACTIVITY_TIMEOUT as int)),
            ],
        }
    }

    /// Open a connection for the application named in the upgrade path.
    ///
    /// Refused with the capacity error when the broker is full (the caller
    /// answers 503) or the application's own gauge is at its capacity; with
    /// the invalid-app error when the application is unknown; and with the
    /// upgrade error in the vanishingly unlikely case that the fresh socket
    /// id collides with a live one. On success the client is live, the
    /// application's gauge is one higher, and the caller sends the greeting
    /// to the new socket.
    #[verifier::rlimit(100)]
    #[verifier::spinoff_prover]
    pub fn open_connection(&mut self, app_id: &[u8]) -> (r: Result<
        (Vec<u8>, Payload),
        FastSocketError,
    >)
        requires
            old(self).wf(),
        ensures
            final(self).wf(),
            final(self).spec_max_connections() == old(self).spec_max_connections(),
            final(self).spec_registry() == old(self).spec_registry(),
            old(self).spec_clients().len() >= old(self).spec_max_connections() ==> r == Err::<
                (Vec<u8>, Payload),
                FastSocketError,
            >(FastSocketError::ServerCapacityError) && final(self).spec_clients() == old(self).spec_clients() && final(self).spec_catalog() == old(self).spec_catalog(),
            (old(self).spec_clients().len() < old(self).spec_max_connections() && spec_find_idx(
                old(self).spec_catalog(),
                app_id@,
            ) is None) ==> r == Err::<(Vec<u8>, Payload), FastSocketError>(
                FastSocketError::InvalidAppError,
            ) && final(self).spec_clients() == old(self).spec_clients() && final(self).spec_catalog() == old(self).spec_catalog(),
            r is Err ==> final(self).spec_clients() == old(self).spec_clients() && final(self).spec_catalog() == old(self).spec_catalog(),
            r matches Ok(p) ==> ({
                &&& is_valid_socket_id(p.0@)
                &&& p.1@ == Self::spec_established(p.0@)
                &&& final(self).spec_clients() == old(self).spec_clients().push(
                    ClientSpec { socket_id: p.0@, public_key: Seq::empty(), app_id: app_id@ },
                )
                &&& old(self).spec_clients().len() < old(self).spec_max_connections()
                &&& spec_find_idx(old(self).spec_catalog(), app_id@) matches Some(a) && final(self).spec_catalog() == old(self).spec_catalog().update(
                    a,
                    AppSpec {
                        connection_count: (old(self).spec_catalog()[a].connection_count
                            + 1) as u64,
                        ..old(self).spec_catalog()[a]
                    },
                )
            }),
    {
        proof {
            lemma_view_clients_index(self.clients@);
            crate::json_app_manager::lemma_catalog_ids_unique(&self.app_manager);
        }
        if self.clients.len() as u64 >= self.max_connections {
            return Err(FastSocketError::ServerCapacityError);
        }
        let found = self.app_manager.find(app_id).is_some();
        if !found {
            return Err(FastSocketError::InvalidAppError);
        }
        let client = Client::new(bytestr::to_vec(app_id));
        // a colliding socket id is astronomically unlikely; give up rather
        // than loop
        if self.is_live(client.get_socket_id().as_slice()) {
            return Err(FastSocketError::UpgradeFailedError);
        }
        if !self.app_manager.increment_connection_count(app_id) {
            // the application is at its own capacity
            return Err(FastSocketError::ServerCapacityError);
        }
        let socket_id = bytestr::to_vec(client.get_socket_id().as_slice());
        let greeting = match Payload::builder().event(
            names::connection_established_bytes().as_slice(),
        ).add_data(names::socket_id_bytes().as_slice(), JsonValue::Str(bytestr::to_vec(
            socket_id.as_slice(),
        ))).add_data(
            names::activity_timeout_bytes().as_slice(),
            JsonValue::Int(ACTIVITY_TIMEOUT as i64),
        ).build() {
            Ok(p) => p,
            Err(_) => {
                proof {
                    assert(false);
                }
                vstd::pervasive::unreached()
            },
        };
        proof {
            crate::payload::lemma_spec_set_empty_two(
                names::socket_id(),
                Json::Str(socket_id@),
                names::activity_timeout(),
                Json::Int(ACTIVITY_TIMEOUT as int),
            );
        }
        let ghost pre_clients = self.spec_clients();
        self.clients.push(client);
        proof {
            lemma_view_clients_index(self.clients@);
            assert(self.spec_clients() =~= pre_clients.push(
                ClientSpec { socket_id: socket_id@, public_key: Seq::empty(), app_id: app_id@ },
            ));
            let newc = ClientSpec {
                socket_id: socket_id@,
                public_key: Seq::empty(),
                app_id: app_id@,
            };
            let cat0 = old(self).spec_catalog();
            let a = spec_find_idx(cat0, app_id@)->Some_0;
            assert forall|x: int|
                0 <= x < self.spec_catalog().len() implies (#[trigger] self.spec_catalog()[
                x
            ]).connection_count == spec_count_clients(
                self.spec_clients(),
                self.spec_catalog()[x].id,
            ) by {
                lemma_count_push(pre_clients, newc, self.spec_catalog()[x].id);
                if x == a {
                    assert(cat0[a].id == app_id@);
                } else {
                    // distinct records have distinct ids
                    assert(self.spec_catalog()[x].id == cat0[x].id);
                    if cat0[x].id == app_id@ {
                        assert(cat0[a].id == app_id@);
                        if x < a {
                            assert(cat0[x].id != cat0[a].id);
                        } else {
                            assert(cat0[a].id != cat0[x].id);
                        }
                    }
                }
            }
            assert forall|i: int|
                0 <= i < self.spec_clients().len() implies spec_find_idx(
                self.spec_catalog(),
                (#[trigger] self.spec_clients()[i]).app_id,
            ) is Some by {
                let cid = self.spec_clients()[i].app_id;
                if i < pre_clients.len() {
                    assert(pre_clients[i].app_id == cid);
                    assert(spec_find_idx(cat0, cid) is Some);
                    let w = spec_find_idx(cat0, cid)->Some_0;
                    assert(self.spec_catalog()[w].id == cid);
                } else {
                    assert(cid == app_id@);
                    assert(self.spec_catalog()[a].id == app_id@);
                }
            }
            assert forall|i: int, j: int|
                0 <= i < j < self.spec_clients().len() implies (#[trigger] self.spec_clients()[
                i
            ]).socket_id != (#[trigger] self.spec_clients()[j]).socket_id by {
                if j == self.spec_clients().len() - 1 {
                    if self.spec_clients()[i].socket_id == socket_id@ {
                        assert(pre_clients[i].socket_id == socket_id@);
                    }
                }
            }
            assert forall|e: int, c: int|
                0 <= e < self.spec_registry().len() && 0 <= c
                < self.spec_registry()[e].1.connections.len() implies exists|k: int|
                0 <= k < self.spec_clients().len() && (#[trigger] self.spec_clients()[
                    k
                ]).socket_id == #[trigger] self.spec_registry()[e].1.connections[c] by {
                let k = choose|k: int|
                    0 <= k < pre_clients.len() && (#[trigger] pre_clients[k]).socket_id == old(self).spec_registry()[e].1.connections[c];
                assert(self.spec_clients()[k].socket_id
                    == self.spec_registry()[e].1.connections[c]);
            }
        }
        Ok((socket_id, greeting))
    }

    /// Is a socket id live?
    pub fn is_live(&self, socket_id: &[u8]) -> (r: bool)
        ensures
            r == exists|k: int|
                0 <= k < self.spec_clients().len() && (#[trigger] self.spec_clients()[
                    k
                ]).socket_id == socket_id@,
    {
        proof {
            lemma_view_clients_index(self.clients@);
        }
        let n = self.clients.len();
        let mut i: usize = 0;
        while i < n
            invariant
                i <= n,
                n == self.clients@.len(),
                self.spec_clients().len() == n,
                forall|j: int| 0 <= j < n ==> self.spec_clients()[j] == self.clients@[j]@,
                forall|j: int| 0 <= j < i ==> (#[trigger] self.spec_clients()[j]).socket_id != socket_id@,
            decreases n - i,
        {
            if bytestr::bytes_eq(self.clients[i].socket_id.as_slice(), socket_id) {
                proof {
                    assert(self.spec_clients()[i as int].socket_id == socket_id@);
                }
                return true;
            }
            i = i + 1;
        }
        false
    }
}


/// The first live client with the socket id, if any.
pub open spec fn spec_live_client(cs: Seq<ClientSpec>, socket_id: Seq<u8>) -> Option<ClientSpec> {
    if exists|k: int| 0 <= k < cs.len() && (#[trigger] cs[k]).socket_id == socket_id {
        Some(cs[choose|k: int| 0 <= k < cs.len() && (#[trigger] cs[k]).socket_id == socket_id])
    } else {
        None
    }
}

impl WebSocket {
    /// The channel registry, for reading.
    pub fn channels(&self) -> (r: &LocalChannelManager)
        ensures
            r.view_registry() == self.spec_registry(),
            self.wf() ==> r.wf(),
    {
        &self.channel_manager
    }

    /// The application catalog, for reading.
    pub fn apps(&self) -> (r: &JsonAppManager)
        ensures
            r.view_catalog() == self.spec_catalog(),
            self.wf() ==> r.wf(),
    {
        &self.app_manager
    }

    fn client_index(&self, socket_id: &[u8]) -> (r: Option<usize>)
        ensures
            match r {
                Some(i) => i < self.spec_clients().len() && self.spec_clients()[
                    i as int
                ].socket_id == socket_id@ && spec_live_client(self.spec_clients(), socket_id@)
                    is Some,
                None => spec_live_client(self.spec_clients(), socket_id@) is None,
            },
    {
        proof {
            lemma_view_clients_index(self.clients@);
        }
        let n = self.clients.len();
        let mut i: usize = 0;
        while i < n
            invariant
                i <= n,
                n == self.clients@.len(),
                self.spec_clients().len() == n,
                forall|j: int| 0 <= j < n ==> self.spec_clients()[j] == self.clients@[j]@,
                forall|j: int|
                    0 <= j < i ==> (#[trigger] self.spec_clients()[j]).socket_id != socket_id@,
            decreases n - i,
        {
            if bytestr::bytes_eq(self.clients[i].socket_id.as_slice(), socket_id) {
                proof {
                    assert(self.spec_clients()[i as int].socket_id == socket_id@);
                }
                return Some(i);
            }
            i = i + 1;
        }
        None
    }

    /// Dispatch one decoded payload from a live client: control messages
    /// drive the registry, client events are relayed. The live set, the
    /// catalog and the cap never change here.
    pub fn handle_payload(&mut self, socket_id: &[u8], payload: Payload) -> (r: Result<
        Vec<SendAction>,
        FastSocketError,
    >)
        requires
            old(self).wf(),
        ensures
            final(self).wf(),
            final(self).spec_clients() == old(self).spec_clients(),
            final(self).spec_catalog() == old(self).spec_catalog(),
            final(self).spec_max_connections() == old(self).spec_max_connections(),
            spec_live_client(old(self).spec_clients(), socket_id@) is None ==> r == Err::<
                Vec<SendAction>,
                FastSocketError,
            >(FastSocketError::ErrorHandlingMessage) && final(self).spec_registry() == old(self).spec_registry(),
            (spec_live_client(old(self).spec_clients(), socket_id@) is Some && payload@.event
                == names::ping()) ==> final(self).spec_registry() == old(self).spec_registry()
                && (r matches Ok(a) && view_actions(a@) == seq![
                SendActionSpec {
                    socket_id: socket_id@,
                    payload: crate::message::spec_pong_payload(),
                },
            ]),
            (spec_live_client(old(self).spec_clients(), socket_id@) is Some
                && !crate::bytestr::spec_starts_with(payload@.event, names::pusher_prefix()))
                ==> final(self).spec_registry() == old(self).spec_registry(),
    {
        proof {
            lemma_view_clients_index(self.clients@);
        }
        let idx = match self.client_index(socket_id) {
            Some(i) => i,
            None => {
                return Err(FastSocketError::ErrorHandlingMessage);
            },
        };
        let ghost live = self.spec_clients()[idx as int];
        // the owning application is always registered for a live client
        let app: App = {
            let found = self.app_manager.find(self.clients[idx].app_id.as_slice());
            match found {
                Some(a) => a.to_app(),
                None => {
                    proof {
                        assert(spec_find_idx(self.spec_catalog(), live.app_id) is Some);
                        assert(false);
                    }
                    vstd::pervasive::unreached()
                },
            }
        };
        let factory = MessageFactory::new();
        let ghost pv = payload@;
        let ghost reg0 = self.spec_registry();
        let classified = factory.for_payload(payload);
        match classified {
            ClassifiedMessage::Protocol(m) => {
                let ghost csid = self.clients@[idx as int]@.socket_id;
                let r = m.handle(&self.clients[idx], &app, &mut self.channel_manager);
                proof {
                    assert(csid == socket_id@);
                    self.lemma_containment_after_protocol(
                        old(self),
                        reg0,
                        pv,
                        live,
                        if r is Ok {
                            Ok(view_actions(r->Ok_0@))
                        } else {
                            Err(r->Err_0)
                        },
                    );
                }
                r
            },
            ClassifiedMessage::Client(m) => {
                proof {
                    // pusher events never classify as client events
                    assert(names::ping().subrange(0, 7) =~= names::pusher_prefix());
                    assert(crate::bytestr::spec_starts_with(
                        names::ping(),
                        names::pusher_prefix(),
                    ));
                }
                let r = m.handle(&self.clients[idx], &app, &self.channel_manager);
                Ok(r)
            },
        }
    }

    /// After a control message, every subscriber id in the registry is still
    /// a live client's: dispatch can only have added the dispatching
    /// client's own id.
    proof fn lemma_containment_after_protocol(
        &self,
        pre: &WebSocket,
        reg0: Seq<(Seq<u8>, crate::channel::ChannelSpec)>,
        pv: PayloadSpec,
        live: ClientSpec,
        r: Result<Seq<SendActionSpec>, FastSocketError>,
    )
        requires
            pre.wf(),
            reg0 == pre.spec_registry(),
            self.spec_clients() == pre.spec_clients(),
            exists|k: int|
                0 <= k < self.spec_clients().len() && #[trigger] self.spec_clients()[k] == live,
            // what the dispatch contract leaves us with, by event
            pv.event == names::ping() ==> self.spec_registry() == reg0,
            pv.event == names::subscribe() ==> match crate::payload::spec_lookup(
                pv.data,
                names::channel(),
            ) {
                Some(v) => match v {
                    Json::Str(name) => ({
                        let rc = crate::message::spec_after_create(reg0, live.app_id, name);
                        &&& self.spec_registry().len() == rc.0.len()
                        &&& (forall|j: int|
                            0 <= j < rc.0.len() && j != rc.1 ==> self.spec_registry()[j]
                                == rc.0[j])
                        &&& (self.spec_registry()[rc.1].1.connections == rc.0[rc.1].1.connections
                            || self.spec_registry()[rc.1].1.connections
                            == crate::channel::spec_insert_id(
                            rc.0[rc.1].1.connections,
                            live.socket_id,
                        ))
                    }),
                    _ => self.spec_registry() == reg0,
                },
                None => self.spec_registry() == reg0,
            },
            pv.event == names::unsubscribe() ==> match crate::channel_manager::spec_find_ch(
                reg0,
                live.app_id,
                pv.channel,
            ) {
                Some(i) => self.spec_registry().len() == reg0.len() && (forall|j: int|
                    0 <= j < reg0.len() && j != i ==> self.spec_registry()[j] == reg0[j])
                    && self.spec_registry()[i].1.connections
                    == crate::channel::spec_remove_id(reg0[i].1.connections, live.socket_id),
                None => self.spec_registry() == reg0,
            },
            (pv.event != names::ping() && pv.event != names::subscribe() && pv.event
                != names::unsubscribe()) ==> self.spec_registry() == reg0,
        ensures
            forall|e: int, c: int|
                0 <= e < self.spec_registry().len() && 0 <= c
                    < self.spec_registry()[e].1.connections.len() ==> exists|k: int|
                    0 <= k < self.spec_clients().len() && (#[trigger] self.spec_clients()[
                        k
                    ]).socket_id == #[trigger] self.spec_registry()[e].1.connections[c],
    {
        let regf = self.spec_registry();
        let cs = self.spec_clients();
        let sid = live.socket_id;
        assert forall|e: int, c: int|
            0 <= e < regf.len() && 0 <= c < regf[e].1.connections.len() implies exists|k: int|
            0 <= k < cs.len() && (#[trigger] cs[k]).socket_id == #[trigger] regf[
                e
            ].1.connections[c] by {
            let x = regf[e].1.connections[c];
            let kl = choose|k: int| 0 <= k < cs.len() && #[trigger] cs[k] == live;
            if regf == reg0 {
                assert(exists|k: int|
                    0 <= k < pre.spec_clients().len() && (#[trigger] pre.spec_clients()[
                        k
                    ]).socket_id == x);
            } else if pv.event == names::subscribe() && (crate::payload::spec_lookup(
                pv.data,
                names::channel(),
            ) matches Some(Json::Str(name))) {
                let name = crate::payload::spec_lookup(pv.data, names::channel())->Some_0->Str_0;
                let rc = crate::message::spec_after_create(reg0, live.app_id, name);
                if e != rc.1 {
                    assert(regf[e] == rc.0[e]);
                    if crate::channel_manager::spec_find_ch(reg0, live.app_id, name) is Some {
                        assert(rc.0[e] == reg0[e]);
                    } else {
                        assert(e < reg0.len());
                        assert(rc.0[e] == reg0[e]);
                    }
                    assert(exists|k: int|
                        0 <= k < pre.spec_clients().len() && (#[trigger] pre.spec_clients()[
                            k
                        ]).socket_id == x);
                } else {
                    let base = rc.0[rc.1].1.connections;
                    let cur = regf[rc.1].1.connections;
                    if cur == base || c < base.len() {
                        // the id stood in the base table
                        if crate::channel_manager::spec_find_ch(reg0, live.app_id, name)
                            is Some {
                            let i0 = crate::channel_manager::spec_find_ch(
                                reg0,
                                live.app_id,
                                name,
                            )->Some_0;
                            assert(base == reg0[i0].1.connections);
                            if cur == base {
                                assert(x == reg0[i0].1.connections[c]);
                            } else {
                                assert(crate::channel::spec_insert_id(base, sid) == base
                                    || crate::channel::spec_insert_id(base, sid) == base.push(
                                    sid,
                                ));
                                assert(x == base[c] || x == sid);
                            }
                            if x == sid {
                                assert(cs[kl].socket_id == x);
                            } else {
                                assert(crate::channel::spec_contains_id(base, x));
                                let c0 = choose|c0: int|
                                    0 <= c0 < base.len() && base[c0] == x;
                                assert(reg0[i0].1.connections[c0] == x);
                                assert(exists|k: int|
                                    0 <= k < pre.spec_clients().len() && (
                                    #[trigger] pre.spec_clients()[k]).socket_id == x);
                            }
                        } else {
                            // freshly created: the base is empty
                            assert(base.len() == 0);
                            assert(cur == crate::channel::spec_insert_id(base, sid) || cur
                                == base);
                            assert(x == sid);
                            assert(cs[kl].socket_id == x);
                        }
                    } else {
                        // beyond the base: the inserted id
                        assert(cur == crate::channel::spec_insert_id(base, sid));
                        assert(cur == base.push(sid) || cur == base);
                        assert(x == sid);
                        assert(cs[kl].socket_id == x);
                    }
                }
            } else if pv.event == names::unsubscribe() && (
            crate::channel_manager::spec_find_ch(reg0, live.app_id, pv.channel) matches Some(
                i,
            )) {
                let i = crate::channel_manager::spec_find_ch(
                    reg0,
                    live.app_id,
                    pv.channel,
                )->Some_0;
                if e != i {
                    assert(regf[e] == reg0[e]);
                    assert(exists|k: int|
                        0 <= k < pre.spec_clients().len() && (#[trigger] pre.spec_clients()[
                            k
                        ]).socket_id == x);
                } else {
                    pre.channel_manager.lemma_registry_connections_unique();
                    let base = reg0[i].1.connections;
                    assert(forall|p: int, q: int|
                        0 <= p < q < base.len() ==> base[p] != base[q]);
                    crate::channel::lemma_remove_id_props(base, sid);
                    let cur = regf[i].1.connections;
                    assert(crate::channel::spec_contains_id(cur, x));
                    assert(x != sid);
                    assert(crate::channel::spec_contains_id(base, x));
                    let c0 = choose|c0: int| 0 <= c0 < base.len() && base[c0] == x;
                    assert(reg0[i].1.connections[c0] == x);
                    assert(exists|k: int|
                        0 <= k < pre.spec_clients().len() && (#[trigger] pre.spec_clients()[
                            k
                        ]).socket_id == x);
                }
            }
        }
    }
}


impl WebSocket {
    /// Close a connection: the client leaves every channel, stops being
    /// live, and its application's gauge drops by one. Closing an unknown
    /// socket id still sweeps the channels (a no-op) and changes nothing
    /// else.
    pub fn close_connection(&mut self, socket_id: &[u8])
        requires
            old(self).wf(),
        ensures
            final(self).wf(),
            final(self).spec_max_connections() == old(self).spec_max_connections(),
            // no channel's subscriber table contains the id afterwards
            forall|e: int|
                0 <= e < final(self).spec_registry().len()
                    ==> !crate::channel::spec_contains_id(
                    (#[trigger] final(self).spec_registry()[e]).1.connections,
                    socket_id@,
                ),
            forall|e: int|
                0 <= e < old(self).spec_registry().len() ==> (#[trigger] final(self).spec_registry()[e]).1.connections == crate::channel::spec_remove_id(
                    old(self).spec_registry()[e].1.connections,
                    socket_id@,
                ),
            !(spec_live_client(final(self).spec_clients(), socket_id@) is Some),
            match spec_live_client(old(self).spec_clients(), socket_id@) {
                Some(c) => ({
                    &&& final(self).spec_clients().len() == old(self).spec_clients().len() - 1
                    &&& spec_find_idx(old(self).spec_catalog(), c.app_id) matches Some(a)
                        && final(self).spec_catalog() == old(self).spec_catalog().update(
                        a,
                        AppSpec {
                            connection_count: (old(self).spec_catalog()[a].connection_count
                                - 1) as u64,
                            ..old(self).spec_catalog()[a]
                        },
                    )
                }),
                None => final(self).spec_clients() == old(self).spec_clients() && final(self).spec_catalog() == old(self).spec_catalog(),
            },
    {
        proof {
            lemma_view_clients_index(self.clients@);
            crate::json_app_manager::lemma_catalog_ids_unique(&self.app_manager);
        }
        let ghost cs0 = self.spec_clients();
        let ghost cat0 = self.spec_catalog();
        match self.client_index(socket_id) {
            Some(i) => {
                let client = self.clients.remove(i);
                proof {
                    lemma_view_clients_index(self.clients@);
                    assert(self.spec_clients() =~= cs0.remove(i as int));
                }
                let decremented = self.app_manager.decrement_connection_count(
                    client.app_id.as_slice(),
                );
                proof {
                    let a = spec_find_idx(cat0, client.app_id@)->Some_0;
                    // the gauge counted this client, so it was positive
                    lemma_count_remove(cs0, i as int, cat0[a].id);
                    assert(cat0[a].id == client.app_id@);
                    assert(cat0[a].connection_count == spec_count_clients(cs0, cat0[a].id));
                    assert(cs0[i as int].app_id == cat0[a].id);
                    assert(cat0[a].connection_count > 0);
                    assert(decremented);
                    // the gauges match the shrunken client set again
                    assert forall|x: int|
                        0 <= x < self.spec_catalog().len() implies (#[trigger] self.spec_catalog()[
                        x
                    ]).connection_count == spec_count_clients(
                        self.spec_clients(),
                        self.spec_catalog()[x].id,
                    ) by {
                        lemma_count_remove(cs0, i as int, self.spec_catalog()[x].id);
                        if x != a {
                            assert(self.spec_catalog()[x] == cat0[x]);
                            if cat0[x].id == client.app_id@ {
                                if x < a {
                                    assert(cat0[x].id != cat0[a].id);
                                } else {
                                    assert(cat0[a].id != cat0[x].id);
                                }
                            }
                        }
                    }
                    // the other clients still belong to registered apps
                    assert forall|k: int|
                        0 <= k < self.spec_clients().len() implies spec_find_idx(
                        self.spec_catalog(),
                        (#[trigger] self.spec_clients()[k]).app_id,
                    ) is Some by {
                        let kid = self.spec_clients()[k].app_id;
                        let k0: int = if k < i { k } else { k + 1 };
                        assert(cs0[k0].app_id == kid);
                        assert(spec_find_idx(cat0, kid) is Some);
                        let w = spec_find_idx(cat0, kid)->Some_0;
                        assert(self.spec_catalog()[w].id == kid);
                    }
                }
                let ghost reg_pre = self.spec_registry();
                let ghost mgr_pre = self.channel_manager;
                self.channel_manager.remove_from_all_channels(socket_id);
                proof {
                    let sid = socket_id@;
                    assert forall|e: int, c: int|
                        0 <= e < self.spec_registry().len() && 0 <= c
                            < self.spec_registry()[e].1.connections.len() implies exists|k: int|
                        0 <= k < self.spec_clients().len() && (#[trigger] self.spec_clients()[
                            k
                        ]).socket_id == #[trigger] self.spec_registry()[e].1.connections[c] by {
                        let x = self.spec_registry()[e].1.connections[c];
                        mgr_pre.lemma_registry_connections_unique();
                        crate::channel::lemma_remove_id_props(reg_pre[e].1.connections, sid);
                        assert(crate::channel::spec_contains_id(
                            self.spec_registry()[e].1.connections,
                            x,
                        ));
                        assert(x != sid);
                        assert(crate::channel::spec_contains_id(reg_pre[e].1.connections, x));
                        let c0 = choose|c0: int|
                            0 <= c0 < reg_pre[e].1.connections.len() && reg_pre[
                                e
                            ].1.connections[c0] == x;
                        assert(old(self).spec_registry()[e].1.connections[c0] == x);
                        assert(exists|k: int|
                            0 <= k < cs0.len() && (#[trigger] cs0[k]).socket_id == x);
                        let k0 = choose|k0: int|
                            0 <= k0 < cs0.len() && (#[trigger] cs0[k0]).socket_id == x;
                        assert(k0 != i);
                        let k: int = if k0 < i as int {
                            k0
                        } else {
                            k0 - 1
                        };
                        assert(self.spec_clients()[k] == cs0[k0]);
                    }
                }
            },
            None => {
                self.channel_manager.remove_from_all_channels(socket_id);
                proof {
                    assert forall|e: int, c: int|
                        0 <= e < self.spec_registry().len() && 0 <= c
                            < self.spec_registry()[e].1.connections.len() implies exists|k: int|
                        0 <= k < self.spec_clients().len() && (#[trigger] self.spec_clients()[
                            k
                        ]).socket_id == #[trigger] self.spec_registry()[e].1.connections[c] by {
                        let x = self.spec_registry()[e].1.connections[c];
                        old(self).channel_manager.lemma_registry_connections_unique();
                        crate::channel::lemma_remove_id_props(
                            old(self).spec_registry()[e].1.connections,
                            socket_id@,
                        );
                        assert(crate::channel::spec_contains_id(
                            self.spec_registry()[e].1.connections,
                            x,
                        ));
                        assert(x != socket_id@);
                        assert(crate::channel::spec_contains_id(
                            old(self).spec_registry()[e].1.connections,
                            x,
                        ));
                        let c0 = choose|c0: int|
                            0 <= c0 < old(self).spec_registry()[e].1.connections.len() && old(self).spec_registry()[e].1.connections[c0] == x;
                        assert(exists|k: int|
                            0 <= k < old(self).spec_clients().len() && (#[trigger] old(self).spec_clients()[k]).socket_id == x);
                    }
                }
            },
        }
    }

    /// Handle one transport frame from a live connection.
    ///
    /// A close frame reports the connection closed (the caller tears the
    /// connection down). A ping frame asks for a protocol-level pong and
    /// changes no state. A final text or binary frame must decode as UTF-8
    /// JSON; its payload is dispatched and the resulting sends come back.
    /// Other frames are ignored. Every error other than the closed one is
    /// contained: the caller logs it and keeps reading.
    pub fn handle_frame(
        &mut self,
        socket_id: &[u8],
        opcode: FrameOpCode,
        fin: bool,
        data: &[u8],
    ) -> (r: Result<Vec<RuntimeAction>, FastSocketError>)
        requires
            old(self).wf(),
        ensures
            final(self).wf(),
            final(self).spec_clients() == old(self).spec_clients(),
            final(self).spec_catalog() == old(self).spec_catalog(),
            final(self).spec_max_connections() == old(self).spec_max_connections(),
            opcode == FrameOpCode::Close ==> r == Err::<Vec<RuntimeAction>, FastSocketError>(
                FastSocketError::ConnectionClosed,
            ) && final(self).spec_registry() == old(self).spec_registry(),
            opcode == FrameOpCode::Ping ==> final(self).spec_registry() == old(self).spec_registry() && (r matches Ok(a) && a@.len() == 1 && (a@[0] matches
                RuntimeAction::Pong)),
            (opcode == FrameOpCode::Continuation || opcode == FrameOpCode::Pong) ==> final(self).spec_registry() == old(self).spec_registry() && (r matches Ok(a) && a@.len() == 0),
            (opcode == FrameOpCode::Text || opcode == FrameOpCode::Binary) && !fin ==> r
                == Err::<Vec<RuntimeAction>, FastSocketError>(FastSocketError::ErrorReadingPayload)
                && final(self).spec_registry() == old(self).spec_registry(),
            (opcode == FrameOpCode::Text || opcode == FrameOpCode::Binary) && fin
                && !vstd::utf8::valid_utf8(data@) ==> r == Err::<
                Vec<RuntimeAction>,
                FastSocketError,
            >(FastSocketError::ErrorDecodingPayload) && final(self).spec_registry() == old(self).spec_registry(),
            (opcode == FrameOpCode::Text || opcode == FrameOpCode::Binary) && fin
                && vstd::utf8::valid_utf8(data@) && crate::payload::spec_payload_of(data@)
                is None ==> r == Err::<Vec<RuntimeAction>, FastSocketError>(
                FastSocketError::InvalidMessageError,
            ) && final(self).spec_registry() == old(self).spec_registry(),
            ({
                &&& (opcode == FrameOpCode::Text || opcode == FrameOpCode::Binary)
                &&& fin
                &&& vstd::utf8::valid_utf8(data@)
                &&& (crate::payload::spec_payload_of(data@) matches Some(p) && p.event
                    == names::ping())
                &&& spec_live_client(old(self).spec_clients(), socket_id@) is Some
            }) ==> final(self).spec_registry() == old(self).spec_registry() && (r matches Ok(a)
                && a@.len() == 1 && (a@[0] matches RuntimeAction::Send(s) && s@
                == (SendActionSpec {
                socket_id: socket_id@,
                payload: crate::message::spec_pong_payload(),
            }))),
    {
        match opcode {
            FrameOpCode::Close => Err(FastSocketError::ConnectionClosed),
            FrameOpCode::Ping => {
                let mut actions: Vec<RuntimeAction> = Vec::new();
                actions.push(RuntimeAction::Pong);
                Ok(actions)
            },
            FrameOpCode::Continuation | FrameOpCode::Pong => Ok(Vec::new()),
            FrameOpCode::Text | FrameOpCode::Binary => {
                if !fin {
                    return Err(FastSocketError::ErrorReadingPayload);
                }
                if !crypto::utf8_valid(data) {
                    return Err(FastSocketError::ErrorDecodingPayload);
                }
                let payload = match Payload::new(data) {
                    Ok(p) => p,
                    Err(e) => {
                        return Err(e);
                    },
                };
                let sends = match self.handle_payload(socket_id, payload) {
                    Ok(s) => s,
                    Err(e) => {
                        return Err(e);
                    },
                };
                let n = sends.len();
                let ghost sends_view = view_actions(sends@);
                proof {
                    crate::channel::lemma_view_actions_index(sends@);
                }
                let mut actions: Vec<RuntimeAction> = Vec::new();
                let mut rest = sends;
                while rest.len() > 0
                    invariant
                        rest@.len() <= n,
                        n == sends_view.len(),
                        forall|j: int|
                            0 <= j < rest@.len() ==> rest@[j]@ == sends_view[n - rest@.len() + j],
                        actions@.len() == n - rest@.len(),
                        forall|j: int|
                            0 <= j < actions@.len() ==> (#[trigger] actions@[j] matches
                                RuntimeAction::Send(s) && s@ == sends_view[j]),
                    decreases rest@.len(),
                {
                    let ghost k = n - rest@.len();
                    let a = rest.remove(0);
                    proof {
                        assert(a@ == sends_view[k]);
                    }
                    actions.push(RuntimeAction::Send(a));
                    proof {
                        assert forall|j: int|
                            0 <= j < rest@.len() implies rest@[j]@ == sends_view[n - rest@.len()
                            + j] by {}
                    }
                }
                Ok(actions)
            },
        }
    }
}


/// Length of the run of non-separator bytes at the front of `s`.
pub open spec fn segment_prefix_len(s: Seq<u8>) -> nat
    decreases s.len(),
{
    if s.len() > 0 && s[0] != 0x2f {
        1 + segment_prefix_len(s.subrange(1, s.len() as int))
    } else {
        0
    }
}

/// The `n`-th `/`-separated segment of a path, if the path has that many.
pub open spec fn spec_path_segment(s: Seq<u8>, n: nat) -> Option<Seq<u8>>
    decreases s.len(), n,
{
    let k = segment_prefix_len(s);
    if n == 0 {
        Some(s.subrange(0, k as int))
    } else if k >= s.len() {
        None
    } else {
        spec_path_segment(s.subrange(k as int + 1, s.len() as int), (n - 1) as nat)
    }
}

/// The run of non-separator bytes at the front is exactly `i` long.
proof fn lemma_segment_prefix_len_of(s: Seq<u8>, i: int)
    requires
        0 <= i <= s.len(),
        forall|j: int| 0 <= j < i ==> s[j] != 0x2f,
        i == s.len() || s[i] == 0x2f,
    ensures
        segment_prefix_len(s) == i,
    decreases i,
{
    if i > 0 {
        let t = s.subrange(1, s.len() as int);
        lemma_segment_prefix_len_of(t, i - 1);
    }
}

/// The application id named by an upgrade path `/app/<app_id>`: its third
/// `/`-separated segment, when the path has one.
#[verifier::loop_isolation(false)]
pub fn app_id_from_path(path: &[u8]) -> (r: Option<Vec<u8>>)
    ensures
        match r {
            Some(id) => spec_path_segment(path@, 2) == Some(id@),
            None => spec_path_segment(path@, 2) is None,
        },
{
    let mut rest: &[u8] = path;
    let mut level: usize = 0;
    loop
        invariant
            level <= 2,
            spec_path_segment(path@, 2) == spec_path_segment(rest@, (2 - level) as nat),
        decreases 2 - level,
    {
        // find this segment's end
        let n = rest.len();
        let mut k: usize = 0;
        while k < n && rest[k] != 0x2f
            invariant
                k <= n,
                n == rest@.len(),
                forall|j: int| 0 <= j < k ==> rest@[j] != 0x2f,
            decreases n - k,
        {
            k = k + 1;
        }
        proof {
            lemma_segment_prefix_len_of(rest@, k as int);
        }
        if level == 2 {
            let seg = vstd::slice::slice_subrange(rest, 0, k);
            return Some(bytestr::to_vec(seg));
        }
        if k == n {
            return None;
        }
        let next = vstd::slice::slice_subrange(rest, k + 1, n);
        proof {
            assert(next@ =~= rest@.subrange(k as int + 1, rest@.len() as int));
        }
        rest = next;
        level = level + 1;
    }
}

} // verus!
