//! Inbound message dispatch: classify a payload as a control message or a
//! client event and compute the state change and the replies it causes.

use vstd::prelude::*;
use crate::app::App;
use crate::bytestr;
use crate::bytestr::spec_starts_with;
use crate::channel::{
    spec_remove_id, spec_send_all, subscribe_outcome, view_actions, SendAction, SendActionSpec,
};
use crate::channel_manager::{
    spec_find_ch, spec_kind_of, LocalChannelManager, CHANNEL_MEMBER_LIMIT,
};
use crate::channel::ChannelSpec;
use crate::client::Client;
use crate::errors::FastSocketError;
use crate::json::Json;
use crate::names;
use crate::payload::{spec_lookup, Payload, PayloadSpec};

verus! {

/// The `pusher:pong` reply to a `pusher:ping` control event.
pub open spec fn spec_pong_payload() -> PayloadSpec {
    PayloadSpec { event: names::pong(), channel: Seq::empty(), data: Seq::empty() }
}

/// The registry and index that a subscribe request works on: the existing
/// channel, or a fresh one of the variant the name asks for, appended.
pub open spec fn spec_after_create(
    reg: Seq<(Seq<u8>, ChannelSpec)>,
    app_id: Seq<u8>,
    name: Seq<u8>,
) -> (Seq<(Seq<u8>, ChannelSpec)>, int) {
    match spec_find_ch(reg, app_id, name) {
        Some(i) => (reg, i),
        None => (
            reg.push(
                (
                    app_id,
                    ChannelSpec {
                        name,
                        kind: spec_kind_of(name),
                        connections: Seq::empty(),
                        channel_data: Seq::empty(),
                    },
                ),
            ),
            reg.len() as int,
        ),
    }
}

/// A message interpreted by the broker itself (`pusher:*`).
pub struct ChannelProtocolMessage {
    payload: Payload,
}

/// A client event, relayed to its channel when the application allows it.
pub struct ClientMessage {
    payload: Payload,
}

/// Respond to an inbound message: mutate the registry and name the sends
/// the caller must perform.
pub trait Message {
    fn respond(
        &self,
        client: &Client,
        app: &App,
        manager: &mut LocalChannelManager,
    ) -> (r: Result<Vec<SendAction>, FastSocketError>)
        requires
            old(manager).wf(),
        ensures
            final(manager).wf(),
    ;
}

impl ChannelProtocolMessage {
    pub fn new(payload: Payload) -> (r: ChannelProtocolMessage)
        ensures
            r@ == payload@,
    {
        ChannelProtocolMessage { payload }
    }

    pub closed spec fn view(&self) -> PayloadSpec {
        self.payload@
    }

    /// Handle a control message.
    ///
    /// `pusher:ping` answers with `pusher:pong` and changes nothing.
    /// `pusher:subscribe` reads the channel name from the data (a missing
    /// name is ignored), creates the channel on demand, and subscribes the
    /// client under the variant's policy. `pusher:unsubscribe` removes the
    /// client from the channel named by the envelope, and is a no-op when
    /// that channel does not exist. Other control events are ignored.
    pub fn handle(
        &self,
        client: &Client,
        app: &App,
        manager: &mut LocalChannelManager,
    ) -> (r: Result<Vec<SendAction>, FastSocketError>)
        requires
            old(manager).wf(),
        ensures
            final(manager).wf(),
            self@.event == names::ping() ==> final(manager).view_registry() == old(manager).view_registry() && (r matches Ok(a) && view_actions(a@) == seq![
                SendActionSpec { socket_id: client.socket_id@, payload: spec_pong_payload() },
            ]),
            self@.event == names::subscribe() ==> match spec_lookup(
                self@.data,
                names::channel(),
            ) {
                Some(v) => match v {
                    Json::Str(name) => ({
                        let rc = spec_after_create(
                            old(manager).view_registry(),
                            client.app_id@,
                            name,
                        );
                        &&& final(manager).view_registry().len() == rc.0.len()
                        &&& (forall|j: int|
                            0 <= j < rc.0.len() && j != rc.1 ==> final(manager).view_registry()[j] == rc.0[j])
                        &&& final(manager).view_registry()[rc.1].0 == client.app_id@
                        &&& (rc.0[rc.1].1.connections.len() >= CHANNEL_MEMBER_LIMIT ==> r
                            == Err::<Vec<SendAction>, FastSocketError>(
                            FastSocketError::ServerCapacityError,
                        ) && final(manager).view_registry() == rc.0)
                        &&& (rc.0[rc.1].1.connections.len() < CHANNEL_MEMBER_LIMIT ==> match r {
                            Ok(a) => subscribe_outcome(
                                rc.0[rc.1].1,
                                final(manager).view_registry()[rc.1].1,
                                client.socket_id@,
                                app.secret@,
                                self@,
                                Ok(view_actions(a@)),
                            ),
                            Err(e) => subscribe_outcome(
                                rc.0[rc.1].1,
                                final(manager).view_registry()[rc.1].1,
                                client.socket_id@,
                                app.secret@,
                                self@,
                                Err(e),
                            ),
                        })
                        &&& (r is Ok ==> spec_find_ch(
                            final(manager).view_registry(),
                            client.app_id@,
                            name,
                        ) is Some)
                    }),
                    _ => final(manager).view_registry() == old(manager).view_registry() && (
                    r matches Ok(a) && a@.len() == 0),
                },
                None => final(manager).view_registry() == old(manager).view_registry() && (
                r matches Ok(a) && a@.len() == 0),
            },
            self@.event == names::unsubscribe() ==> (r matches Ok(a) && a@.len() == 0)
                && match spec_find_ch(
                old(manager).view_registry(),
                client.app_id@,
                self@.channel,
            ) {
                Some(i) => {
                    &&& final(manager).view_registry().len() == old(manager).view_registry().len()
                    &&& (forall|j: int|
                        0 <= j < old(manager).view_registry().len() && j != i ==> final(manager).view_registry()[j] == old(manager).view_registry()[j])
                    &&& final(manager).view_registry()[i].1.connections == spec_remove_id(
                        old(manager).view_registry()[i].1.connections,
                        client.socket_id@,
                    )
                },
                None => final(manager).view_registry() == old(manager).view_registry(),
            },
            (self@.event != names::ping() && self@.event != names::subscribe() && self@.event
                != names::unsubscribe()) ==> final(manager).view_registry() == old(manager).view_registry() && (r matches Ok(a) && a@.len() == 0),
    {
        let event = self.payload.get_event();
        if bytestr::bytes_eq(event.as_slice(), names::ping_bytes().as_slice()) {
            let pong = match Payload::builder().event(names::pong_bytes().as_slice()).build() {
                Ok(p) => p,
                Err(_) => {
                    proof {
                        assert(false);
                    }
                    vstd::pervasive::unreached()
                },
            };
            let act = SendAction {
                socket_id: bytestr::to_vec(client.socket_id.as_slice()),
                payload: pong,
            };
            let mut actions: Vec<SendAction> = Vec::new();
            actions.push(act);
            proof {
                crate::channel::lemma_view_actions_index(actions@);
                assert(view_actions(actions@) =~= seq![actions@[0]@]);
                assert(actions@[0]@.payload.data =~= Seq::<(Seq<u8>, Json)>::empty());
                assert(actions@[0]@.payload.channel =~= Seq::<u8>::empty());
                assert(actions@[0]@ == (SendActionSpec {
                    socket_id: client.socket_id@,
                    payload: spec_pong_payload(),
                }));
            }
            Ok(actions)
        } else if bytestr::bytes_eq(event.as_slice(), names::subscribe_bytes().as_slice()) {
            let name = match self.payload.get_data_str(names::channel_bytes().as_slice()) {
                Some(n) => n,
                None => {
                    // a subscribe without a channel name is ignored
                    return Ok(Vec::new());
                },
            };
            let idx = manager.find_or_create(client.app_id.as_slice(), name.as_slice());
            manager.subscribe_at(idx, client, app, &self.payload)
        } else if bytestr::bytes_eq(event.as_slice(), names::unsubscribe_bytes().as_slice()) {
            let name = self.payload.get_channel();
            let name_copy = bytestr::to_vec(name.as_slice());
            manager.unsubscribe(
                client.app_id.as_slice(),
                name_copy.as_slice(),
                client.socket_id.as_slice(),
            );
            Ok(Vec::new())
        } else {
            Ok(Vec::new())
        }
    }
}

impl Message for ChannelProtocolMessage {
    fn respond(
        &self,
        client: &Client,
        app: &App,
        manager: &mut LocalChannelManager,
    ) -> (r: Result<Vec<SendAction>, FastSocketError>) {
        self.handle(client, app, manager)
    }
}

impl ClientMessage {
    pub fn new(payload: Payload) -> (r: ClientMessage)
        ensures
            r@ == payload@,
    {
        ClientMessage { payload }
    }

    pub closed spec fn view(&self) -> PayloadSpec {
        self.payload@
    }

    /// Relay a client event to the other subscribers of its channel, when
    /// the application allows client messages; otherwise drop it silently.
    /// The registry is never changed.
    pub fn handle(
        &self,
        client: &Client,
        app: &App,
        manager: &LocalChannelManager,
    ) -> (r: Vec<SendAction>)
        requires
            manager.wf(),
        ensures
            !app.spec_client_messages_enabled() ==> r@.len() == 0,
            app.spec_client_messages_enabled() ==> view_actions(r@) == (match spec_find_ch(
                manager.view_registry(),
                client.app_id@,
                self@.channel,
            ) {
                Some(i) => spec_send_all(
                    spec_remove_id(
                        manager.view_registry()[i].1.connections,
                        client.socket_id@,
                    ),
                    self@,
                ),
                None => Seq::<SendActionSpec>::empty(),
            }),
    {
        if !app.is_client_messages_enabled() {
            return Vec::new();
        }
        manager.broadcast_except(
            client.app_id.as_slice(),
            self.payload.get_channel().as_slice(),
            client.socket_id.as_slice(),
            &self.payload,
        )
    }
}

impl Message for ClientMessage {
    fn respond(
        &self,
        client: &Client,
        app: &App,
        manager: &mut LocalChannelManager,
    ) -> (r: Result<Vec<SendAction>, FastSocketError>) {
        Ok(self.handle(client, app, manager))
    }
}

/// A classified inbound payload.
pub enum ClassifiedMessage {
    Protocol(ChannelProtocolMessage),
    Client(ClientMessage),
}

/// Tells control messages from client events by the `pusher:` prefix.
pub struct MessageFactory {}

impl MessageFactory {
    pub fn new() -> (r: MessageFactory) {
        MessageFactory {  }
    }

    /// Classify a payload: events starting with `pusher:` are control
    /// messages, everything else is a client event.
    pub fn for_payload(&self, payload: Payload) -> (r: ClassifiedMessage)
        ensures
            spec_starts_with(payload@.event, names::pusher_prefix()) ==> (r matches
                ClassifiedMessage::Protocol(m) && m@ == payload@),
            !spec_starts_with(payload@.event, names::pusher_prefix()) ==> (r matches
                ClassifiedMessage::Client(m) && m@ == payload@),
    {
        if bytestr::starts_with(
            payload.get_event().as_slice(),
            names::pusher_prefix_bytes().as_slice(),
        ) {
            ClassifiedMessage::Protocol(ChannelProtocolMessage::new(payload))
        } else {
            ClassifiedMessage::Client(ClientMessage::new(payload))
        }
    }
}

} // verus!
