//! Channels: a named fan-out set of subscribers with four variants that
//! differ in subscribe policy; presence channels also carry member data.

use vstd::prelude::*;
use crate::app::App;
use crate::bytestr;
use crate::client::Client;
use crate::crypto;
use crate::errors::FastSocketError;
use crate::json;
use crate::json::{Json, JsonValue};
use crate::names;
use crate::payload::{spec_lookup, spec_set, Payload, PayloadSpec};

verus! {

/// The four channel variants, told apart by name prefix at creation.
#[derive(Clone, Copy, Debug, PartialEq, Eq, Structural)]
pub enum ChannelKind {
    Public,
    Private,
    Encrypted,
    Presence,
}

/// One message to be written to one subscriber's transport. The caller owns
/// the transports and performs the sends.
#[derive(Debug)]
pub struct SendAction {
    pub socket_id: Vec<u8>,
    pub payload: Payload,
}

/// Model of a pending send.
pub ghost struct SendActionSpec {
    pub socket_id: Seq<u8>,
    pub payload: PayloadSpec,
}

impl View for SendAction {
    type V = SendActionSpec;

    open spec fn view(&self) -> SendActionSpec {
        SendActionSpec { socket_id: self.socket_id@, payload: self.payload@ }
    }
}

pub open spec fn view_ids(ids: Seq<Vec<u8>>) -> Seq<Seq<u8>>
    decreases ids,
{
    if ids.len() == 0 {
        Seq::empty()
    } else {
        seq![ids[0]@] + view_ids(ids.subrange(1, ids.len() as int))
    }
}

pub broadcast proof fn lemma_view_ids_index(ids: Seq<Vec<u8>>)
    ensures
        (#[trigger] view_ids(ids)).len() == ids.len(),
        forall|i: int| 0 <= i < ids.len() ==> view_ids(ids)[i] == ids[i]@,
    decreases ids,
{
    if ids.len() > 0 {
        let tail = ids.subrange(1, ids.len() as int);
        lemma_view_ids_index(tail);
        assert forall|i: int| 0 <= i < ids.len() implies view_ids(ids)[i] == ids[i]@ by {
            if i > 0 {
                assert(view_ids(ids)[i] == view_ids(tail)[i - 1]);
                assert(tail[i - 1] == ids[i]);
            }
        }
    }
}

pub open spec fn view_actions(acts: Seq<SendAction>) -> Seq<SendActionSpec>
    decreases acts,
{
    if acts.len() == 0 {
        Seq::empty()
    } else {
        seq![acts[0]@] + view_actions(acts.subrange(1, acts.len() as int))
    }
}

pub broadcast proof fn lemma_view_actions_index(acts: Seq<SendAction>)
    ensures
        (#[trigger] view_actions(acts)).len() == acts.len(),
        forall|i: int| 0 <= i < acts.len() ==> view_actions(acts)[i] == acts[i]@,
    decreases acts,
{
    if acts.len() > 0 {
        let tail = acts.subrange(1, acts.len() as int);
        lemma_view_actions_index(tail);
        assert forall|i: int| 0 <= i < acts.len() implies view_actions(acts)[i] == acts[i]@ by {
            if i > 0 {
                assert(view_actions(acts)[i] == view_actions(tail)[i - 1]);
                assert(tail[i - 1] == acts[i]);
            }
        }
    }
}

/// Is the socket id among the subscribers?
pub open spec fn spec_contains_id(conns: Seq<Seq<u8>>, id: Seq<u8>) -> bool {
    exists|i: int| 0 <= i < conns.len() && conns[i] == id
}

/// Insert a subscriber: already-present ids leave the table unchanged.
pub open spec fn spec_insert_id(conns: Seq<Seq<u8>>, id: Seq<u8>) -> Seq<Seq<u8>> {
    if spec_contains_id(conns, id) {
        conns
    } else {
        conns.push(id)
    }
}

/// All occurrences of the id removed, order otherwise kept.
pub open spec fn spec_remove_id(conns: Seq<Seq<u8>>, id: Seq<u8>) -> Seq<Seq<u8>>
    decreases conns,
{
    if conns.len() == 0 {
        Seq::empty()
    } else if conns[0] == id {
        spec_remove_id(conns.subrange(1, conns.len() as int), id)
    } else {
        seq![conns[0]] + spec_remove_id(conns.subrange(1, conns.len() as int), id)
    }
}

/// The member entry with the given key removed, order otherwise kept.
pub open spec fn spec_remove_key(kvs: Seq<(Seq<u8>, Json)>, key: Seq<u8>) -> Seq<(Seq<u8>, Json)>
    decreases kvs,
{
    if kvs.len() == 0 {
        Seq::empty()
    } else if kvs[0].0 == key {
        spec_remove_key(kvs.subrange(1, kvs.len() as int), key)
    } else {
        seq![kvs[0]] + spec_remove_key(kvs.subrange(1, kvs.len() as int), key)
    }
}

/// One send of `p` to every id, in table order.
pub open spec fn spec_send_all(conns: Seq<Seq<u8>>, p: PayloadSpec) -> Seq<SendActionSpec>
    decreases conns,
{
    if conns.len() == 0 {
        Seq::empty()
    } else {
        seq![SendActionSpec { socket_id: conns[0], payload: p }] + spec_send_all(
            conns.subrange(1, conns.len() as int),
            p,
        )
    }
}

pub broadcast proof fn lemma_spec_send_all_index(conns: Seq<Seq<u8>>, p: PayloadSpec)
    ensures
        (#[trigger] spec_send_all(conns, p)).len() == conns.len(),
        forall|i: int|
            0 <= i < conns.len() ==> spec_send_all(conns, p)[i] == (SendActionSpec {
                socket_id: conns[i],
                payload: p,
            }),
    decreases conns,
{
    if conns.len() > 0 {
        let tail = conns.subrange(1, conns.len() as int);
        lemma_spec_send_all_index(tail, p);
        assert forall|i: int|
            0 <= i < conns.len() implies spec_send_all(conns, p)[i] == SendActionSpec {
                socket_id: conns[i],
                payload: p,
            } by {
            if i > 0 {
                assert(spec_send_all(conns, p)[i] == spec_send_all(tail, p)[i - 1]);
                assert(tail[i - 1] == conns[i]);
            }
        }
    }
}

/// The reply sent after any successful subscription: the event name and the
/// channel, with the given data mapping.
pub open spec fn spec_subscription_succeeded(name: Seq<u8>, data: Seq<(Seq<u8>, Json)>) -> PayloadSpec {
    PayloadSpec { event: names::subscription_succeeded(), channel: name, data }
}

/// A named fan-out set. `channel_data` is only populated on presence
/// channels, keyed by subscriber socket id.
pub struct Channel {
    name: Vec<u8>,
    kind: ChannelKind,
    connections: Vec<Vec<u8>>,
    channel_data: Vec<(Vec<u8>, JsonValue)>,
}

/// Model of a channel.
pub ghost struct ChannelSpec {
    pub name: Seq<u8>,
    pub kind: ChannelKind,
    pub connections: Seq<Seq<u8>>,
    pub channel_data: Seq<(Seq<u8>, Json)>,
}

impl View for Channel {
    type V = ChannelSpec;

    closed spec fn view(&self) -> ChannelSpec {
        ChannelSpec {
            name: self.name@,
            kind: self.kind,
            connections: view_ids(self.connections@),
            channel_data: json::view_obj(self.channel_data@),
        }
    }
}

impl Channel {
    /// Subscriber ids unique; member entries keyed uniquely by ids that are
    /// subscribed; member data only on presence channels.
    pub open spec fn wf(&self) -> bool {
        &&& forall|i: int, j: int|
            0 <= i < j < self@.connections.len() ==> self@.connections[i]
                != self@.connections[j]
        &&& forall|i: int, j: int|
            0 <= i < j < self@.channel_data.len() ==> (#[trigger] self@.channel_data[i]).0 != (
            #[trigger] self@.channel_data[j]).0
        &&& forall|i: int|
            0 <= i < self@.channel_data.len() ==> spec_contains_id(
                self@.connections,
                (#[trigger] self@.channel_data[i]).0,
            )
        &&& self@.kind != ChannelKind::Presence ==> self@.channel_data.len() == 0
    }

    /// An empty channel of the given variant.
    pub fn new(name: Vec<u8>, kind: ChannelKind) -> (r: Channel)
        ensures
            r.wf(),
            r@.name == name@,
            r@.kind == kind,
            r@.connections == Seq::<Seq<u8>>::empty(),
            r@.channel_data == Seq::<(Seq<u8>, Json)>::empty(),
    {
        let r = Channel { name, kind, connections: Vec::new(), channel_data: Vec::new() };
        proof {
            assert(view_ids(r.connections@) =~= Seq::<Seq<u8>>::empty());
            assert(json::view_obj(r.channel_data@) =~= Seq::<(Seq<u8>, Json)>::empty());
        }
        r
    }

    pub fn get_name(&self) -> (r: &Vec<u8>)
        ensures
            r@ == self@.name,
    {
        &self.name
    }

    pub fn get_kind(&self) -> (r: ChannelKind)
        ensures
            r == self@.kind,
    {
        self.kind
    }

    /// Is this id subscribed?
    pub fn has_subscriber(&self, socket_id: &[u8]) -> (r: bool)
        ensures
            r == spec_contains_id(self@.connections, socket_id@),
    {
        proof {
            lemma_view_ids_index(self.connections@);
        }
        let n = self.connections.len();
        let mut i: usize = 0;
        while i < n
            invariant
                i <= n,
                n == self.connections@.len(),
                view_ids(self.connections@).len() == n,
                forall|j: int|
                    0 <= j < n ==> view_ids(self.connections@)[j] == self.connections@[j]@,
                forall|j: int| 0 <= j < i ==> view_ids(self.connections@)[j] != socket_id@,
            decreases n - i,
        {
            if bytestr::bytes_eq(self.connections[i].as_slice(), socket_id) {
                proof {
                    assert(self@.connections[i as int] == socket_id@);
                }
                return true;
            }
            i = i + 1;
        }
        proof {
            if spec_contains_id(self@.connections, socket_id@) {
                let k = choose|k: int|
                    0 <= k < self@.connections.len() && self@.connections[k] == socket_id@;
                assert(view_ids(self.connections@)[k] != socket_id@);
            }
        }
        false
    }

    /// Insert a subscriber. Subscribing twice with the same socket id leaves
    /// the table as it was: the entry is replaced, the count unchanged.
    pub fn save_connection(&mut self, socket_id: Vec<u8>)
        requires
            old(self).wf(),
        ensures
            final(self).wf(),
            final(self)@.connections == spec_insert_id(old(self)@.connections, socket_id@),
            final(self)@.name == old(self)@.name,
            final(self)@.kind == old(self)@.kind,
            final(self)@.channel_data == old(self)@.channel_data,
            spec_contains_id(final(self)@.connections, socket_id@),
    {
        if self.has_subscriber(socket_id.as_slice()) {
            return ;
        }
        proof {
            lemma_view_ids_index(self.connections@);
        }
        self.connections.push(socket_id);
        proof {
            lemma_view_ids_index(self.connections@);
            assert(view_ids(self.connections@) =~= view_ids(old(self).connections@).push(
                socket_id@,
            ));
            let n = self@.connections.len() - 1;
            assert(self@.connections[n] == socket_id@);
            let olds = old(self)@.connections;
            assert forall|p: int, q: int|
                0 <= p < q < self@.connections.len() implies self@.connections[p]
                != self@.connections[q] by {
                if q == n {
                    if self@.connections[p] == socket_id@ {
                        assert(olds[p] == socket_id@);
                        assert(spec_contains_id(olds, socket_id@));
                    }
                } else {
                    assert(self@.connections[p] == olds[p] && self@.connections[q] == olds[q]);
                }
            }
            assert forall|i0: int|
                0 <= i0 < self@.channel_data.len() implies spec_contains_id(
                self@.connections,
                (#[trigger] self@.channel_data[i0]).0,
            ) by {
                let k = choose|k: int|
                    0 <= k < olds.len() && olds[k] == self@.channel_data[i0].0;
                assert(self@.connections[k] == self@.channel_data[i0].0);
            }
        }
    }

    /// Remove a subscriber (and, on presence channels, its member entry).
    /// Removing an unknown id changes nothing.
    pub fn unsubscribe(&mut self, socket_id: &[u8])
        requires
            old(self).wf(),
        ensures
            final(self).wf(),
            final(self)@.connections == spec_remove_id(old(self)@.connections, socket_id@),
            final(self)@.channel_data == spec_remove_key(old(self)@.channel_data, socket_id@),
            final(self)@.name == old(self)@.name,
            final(self)@.kind == old(self)@.kind,
            !spec_contains_id(final(self)@.connections, socket_id@),
    {
        proof {
            lemma_view_ids_index(self.connections@);
            json::lemma_view_obj_index(self.channel_data@);
        }
        let ghost old_conns = self@.connections;
        let ghost old_data = self@.channel_data;
        let n = self.connections.len();
        let mut out: Vec<Vec<u8>> = Vec::new();
        let mut i: usize = 0;
        while i < n
            invariant
                i <= n,
                n == self.connections@.len(),
                view_ids(self.connections@).len() == n,
                forall|j: int|
                    0 <= j < n ==> view_ids(self.connections@)[j] == self.connections@[j]@,
                view_ids(self.connections@) == old_conns,
                view_ids(out@) =~= spec_remove_id(old_conns.subrange(0, i as int), socket_id@),
            decreases n - i,
        {
            proof {
                lemma_remove_id_push(old_conns.subrange(0, i as int), old_conns[i as int], socket_id@);
                assert(old_conns.subrange(0, i as int).push(old_conns[i as int])
                    =~= old_conns.subrange(0, i as int + 1));
            }
            if !bytestr::bytes_eq(self.connections[i].as_slice(), socket_id) {
                let ghost pre = out@;
                let id = bytestr::to_vec(self.connections[i].as_slice());
                out.push(id);
                proof {
                    lemma_view_ids_index(pre);
                    lemma_view_ids_index(out@);
                    assert(view_ids(out@) =~= view_ids(pre).push(old_conns[i as int]));
                }
            }
            i = i + 1;
        }
        proof {
            assert(old_conns.subrange(0, n as int) =~= old_conns);
        }
        self.connections = out;
        // drop the member entry as well
        let m = self.channel_data.len();
        let mut data: Vec<(Vec<u8>, JsonValue)> = Vec::new();
        let mut k: usize = 0;
        while k < m
            invariant
                k <= m,
                m == self.channel_data@.len(),
                json::view_obj(self.channel_data@).len() == m,
                forall|j: int|
                    0 <= j < m ==> json::view_obj(self.channel_data@)[j] == (
                        self.channel_data@[j].0@,
                        self.channel_data@[j].1@,
                    ),
                json::view_obj(self.channel_data@) == old_data,
                json::view_obj(data@) =~= spec_remove_key(
                    old_data.subrange(0, k as int),
                    socket_id@,
                ),
            decreases m - k,
        {
            proof {
                lemma_remove_key_push(
                    old_data.subrange(0, k as int),
                    old_data[k as int],
                    socket_id@,
                );
                assert(old_data.subrange(0, k as int).push(old_data[k as int])
                    =~= old_data.subrange(0, k as int + 1));
            }
            if !bytestr::bytes_eq(self.channel_data[k].0.as_slice(), socket_id) {
                let ghost pre = data@;
                let key = bytestr::to_vec(self.channel_data[k].0.as_slice());
                let v = crate::payload::clone_value(&self.channel_data[k].1);
                data.push((key, v));
                proof {
                    json::lemma_view_obj_index(pre);
                    json::lemma_view_obj_index(data@);
                    assert(json::view_obj(data@) =~= json::view_obj(pre).push(
                        old_data[k as int],
                    ));
                }
            }
            k = k + 1;
        }
        proof {
            assert(old_data.subrange(0, m as int) =~= old_data);
        }
        self.channel_data = data;
        proof {
            lemma_remove_id_props(old_conns, socket_id@);
            lemma_remove_key_props(old_data, socket_id@);
            assert forall|i0: int|
                0 <= i0 < self@.channel_data.len() implies spec_contains_id(
                self@.connections,
                (#[trigger] self@.channel_data[i0]).0,
            ) by {
                let entry = self@.channel_data[i0];
                // the entry comes from the old table, so its id was
                // subscribed; it differs from the removed id, so it stays
                let j = choose|j: int| 0 <= j < old_data.len() && old_data[j] == entry;
                assert(spec_contains_id(old_conns, entry.0));
                assert(entry.0 != socket_id@);
            }
        }
    }

    pub fn has_connection(&self) -> (r: bool)
        ensures
            r == (self@.connections.len() > 0),
    {
        proof {
            lemma_view_ids_index(self.connections@);
        }
        self.connections.len() > 0
    }

    pub fn get_clients_count(&self) -> (r: u64)
        ensures
            r == self@.connections.len(),
    {
        proof {
            lemma_view_ids_index(self.connections@);
        }
        self.connections.len() as u64
    }

    /// A copy of the subscriber table.
    pub fn get_subscribers(&self) -> (r: Vec<Vec<u8>>)
        ensures
            view_ids(r@) == self@.connections,
    {
        proof {
            lemma_view_ids_index(self.connections@);
        }
        let n = self.connections.len();
        let mut out: Vec<Vec<u8>> = Vec::new();
        let mut i: usize = 0;
        while i < n
            invariant
                i <= n,
                n == self.connections@.len(),
                out@.len() == i,
                forall|j: int| 0 <= j < i ==> out@[j]@ == self.connections@[j]@,
            decreases n - i,
        {
            let id = bytestr::to_vec(self.connections[i].as_slice());
            out.push(id);
            i = i + 1;
        }
        proof {
            lemma_view_ids_index(out@);
            assert(view_ids(out@) =~= view_ids(self.connections@));
        }
        out
    }

    /// The channel summary: `{occupied, subscription_count}`.
    pub fn to_array(&self) -> (r: JsonValue)
        requires
            self@.connections.len() < 0x8000000000000000,
        ensures
            r@ == Json::Obj(
                seq![
                    (names::occupied(), Json::Bool(self@.connections.len() > 0)),
                    (names::subscription_count(), Json::Int(self@.connections.len() as int)),
                ],
            ),
    {
        proof {
            lemma_view_ids_index(self.connections@);
        }
        let count = self.connections.len() as u64;
        let occupied = self.connections.len() > 0;
        let mut kvs: Vec<(Vec<u8>, JsonValue)> = Vec::new();
        kvs.push((names::occupied_bytes(), JsonValue::Bool(occupied)));
        kvs.push((names::subscription_count_bytes(), JsonValue::Int(count as i64)));
        proof {
            json::lemma_view_obj_index(kvs@);
            assert(json::view_obj(kvs@) =~= seq![
                (names::occupied(), Json::Bool(self@.connections.len() > 0)),
                (names::subscription_count(), Json::Int(self@.connections.len() as int)),
            ]);
        }
        JsonValue::Obj(kvs)
    }

    /// One send per subscriber, in table order.
    pub fn broadcast(&self, payload: &Payload) -> (r: Vec<SendAction>)
        ensures
            view_actions(r@) == spec_send_all(self@.connections, payload@),
    {
        self.broadcast_filtered(None, payload)
    }

    /// One send per subscriber other than the given id, in table order.
    pub fn broadcast_to_everyone_except(&self, socket_id: &[u8], payload: &Payload) -> (r: Vec<
        SendAction,
    >)
        ensures
            view_actions(r@) == spec_send_all(
                spec_remove_id(self@.connections, socket_id@),
                payload@,
            ),
    {
        self.broadcast_filtered(Some(socket_id), payload)
    }

    /// One send per subscriber other than the client itself.
    pub fn broadcast_to_others(&self, client: &Client, payload: &Payload) -> (r: Vec<SendAction>)
        ensures
            view_actions(r@) == spec_send_all(
                spec_remove_id(self@.connections, client.socket_id@),
                payload@,
            ),
    {
        self.broadcast_filtered(Some(client.socket_id.as_slice()), payload)
    }

    fn broadcast_filtered(&self, except: Option<&[u8]>, payload: &Payload) -> (r: Vec<SendAction>)
        ensures
            view_actions(r@) == spec_send_all(
                match except {
                    Some(id) => spec_remove_id(self@.connections, id@),
                    None => self@.connections,
                },
                payload@,
            ),
    {
        proof {
            lemma_view_ids_index(self.connections@);
        }
        let ghost conns = self@.connections;
        let ghost target = match except {
            Some(id) => spec_remove_id(conns, id@),
            None => conns,
        };
        let n = self.connections.len();
        let mut out: Vec<SendAction> = Vec::new();
        let mut i: usize = 0;
        while i < n
            invariant
                i <= n,
                n == self.connections@.len(),
                view_ids(self.connections@).len() == n,
                forall|j: int|
                    0 <= j < n ==> view_ids(self.connections@)[j] == self.connections@[j]@,
                view_ids(self.connections@) == conns,
                view_actions(out@) =~= spec_send_all(
                    match except {
                        Some(id) => spec_remove_id(conns.subrange(0, i as int), id@),
                        None => conns.subrange(0, i as int),
                    },
                    payload@,
                ),
            decreases n - i,
        {
            let skip = match except {
                Some(id) => bytestr::bytes_eq(self.connections[i].as_slice(), id),
                None => false,
            };
            proof {
                match except {
                    Some(id) => {
                        lemma_remove_id_push(conns.subrange(0, i as int), conns[i as int], id@);
                    },
                    None => {},
                }
                assert(conns.subrange(0, i as int).push(conns[i as int]) =~= conns.subrange(
                    0,
                    i as int + 1,
                ));
            }
            if !skip {
                let ghost pre = out@;
                let act = SendAction {
                    socket_id: bytestr::to_vec(self.connections[i].as_slice()),
                    payload: payload.clone(),
                };
                out.push(act);
                proof {
                    lemma_view_actions_index(pre);
                    lemma_view_actions_index(out@);
                    let base = match except {
                        Some(id) => spec_remove_id(conns.subrange(0, i as int), id@),
                        None => conns.subrange(0, i as int),
                    };
                    lemma_send_all_push(base, conns[i as int], payload@);
                    assert(view_actions(out@) =~= view_actions(pre).push(
                        SendActionSpec { socket_id: conns[i as int], payload: payload@ },
                    ));
                }
            }
            i = i + 1;
        }
        proof {
            assert(conns.subrange(0, n as int) =~= conns);
        }
        out
    }
}

/// Inserting the same subscriber a second time does nothing: subscription is
/// idempotent, and the count is unchanged.
pub proof fn lemma_subscribe_idempotent(conns: Seq<Seq<u8>>, id: Seq<u8>)
    ensures
        spec_insert_id(spec_insert_id(conns, id), id) == spec_insert_id(conns, id),
        spec_insert_id(spec_insert_id(conns, id), id).len() == spec_insert_id(conns, id).len(),
{
    let once = spec_insert_id(conns, id);
    if spec_contains_id(conns, id) {
    } else {
        assert(once[once.len() - 1] == id);
        assert(spec_contains_id(once, id));
    }
}

/// How removal interacts with appending one id.
proof fn lemma_remove_id_push(conns: Seq<Seq<u8>>, x: Seq<u8>, id: Seq<u8>)
    ensures
        spec_remove_id(conns.push(x), id) == if x == id {
            spec_remove_id(conns, id)
        } else {
            spec_remove_id(conns, id).push(x)
        },
    decreases conns,
{
    reveal_with_fuel(spec_remove_id, 3);
    let q = conns.push(x);
    if conns.len() == 0 {
        assert(q =~= seq![x]);
        assert(conns =~= Seq::<Seq<u8>>::empty());
        assert(q.subrange(1, 1) =~= Seq::<Seq<u8>>::empty());
        if x == id {
        } else {
            assert(spec_remove_id(q, id) =~= Seq::<Seq<u8>>::empty().push(x));
        }
    } else {
        let tail = conns.subrange(1, conns.len() as int);
        lemma_remove_id_push(tail, x, id);
        assert(q.subrange(1, q.len() as int) =~= tail.push(x));
        if conns[0] == id {
        } else {
            if x == id {
            } else {
                assert(seq![conns[0]] + spec_remove_id(tail, id).push(x) =~= (seq![conns[0]]
                    + spec_remove_id(tail, id)).push(x));
            }
        }
    }
}

/// How member-entry removal interacts with appending one entry.
proof fn lemma_remove_key_push(kvs: Seq<(Seq<u8>, Json)>, x: (Seq<u8>, Json), key: Seq<u8>)
    ensures
        spec_remove_key(kvs.push(x), key) == if x.0 == key {
            spec_remove_key(kvs, key)
        } else {
            spec_remove_key(kvs, key).push(x)
        },
    decreases kvs,
{
    reveal_with_fuel(spec_remove_key, 3);
    let q = kvs.push(x);
    if kvs.len() == 0 {
        assert(q =~= seq![x]);
        assert(kvs =~= Seq::<(Seq<u8>, Json)>::empty());
        assert(q.subrange(1, 1) =~= Seq::<(Seq<u8>, Json)>::empty());
        if x.0 == key {
        } else {
            assert(spec_remove_key(q, key) =~= Seq::<(Seq<u8>, Json)>::empty().push(x));
        }
    } else {
        let tail = kvs.subrange(1, kvs.len() as int);
        lemma_remove_key_push(tail, x, key);
        assert(q.subrange(1, q.len() as int) =~= tail.push(x));
        if kvs[0].0 == key {
        } else {
            if x.0 == key {
            } else {
                assert(seq![kvs[0]] + spec_remove_key(tail, key).push(x) =~= (seq![kvs[0]]
                    + spec_remove_key(tail, key)).push(x));
            }
        }
    }
}

/// Appending one more recipient appends one more send.
proof fn lemma_send_all_push(conns: Seq<Seq<u8>>, x: Seq<u8>, p: PayloadSpec)
    ensures
        spec_send_all(conns.push(x), p) == spec_send_all(conns, p).push(
            SendActionSpec { socket_id: x, payload: p },
        ),
    decreases conns,
{
    reveal_with_fuel(spec_send_all, 3);
    let q = conns.push(x);
    if conns.len() == 0 {
        assert(q =~= seq![x]);
        assert(conns =~= Seq::<Seq<u8>>::empty());
        assert(q.subrange(1, 1) =~= Seq::<Seq<u8>>::empty());
        assert(spec_send_all(q, p) =~= Seq::<SendActionSpec>::empty().push(
            SendActionSpec { socket_id: x, payload: p },
        ));
    } else {
        let tail = conns.subrange(1, conns.len() as int);
        lemma_send_all_push(tail, x, p);
        assert(q.subrange(1, q.len() as int) =~= tail.push(x));
        assert(seq![SendActionSpec { socket_id: conns[0], payload: p }] + spec_send_all(
            tail,
            p,
        ).push(SendActionSpec { socket_id: x, payload: p }) =~= (seq![
            SendActionSpec { socket_id: conns[0], payload: p },
        ] + spec_send_all(tail, p)).push(SendActionSpec { socket_id: x, payload: p }));
    }
}

/// What removal keeps when the table's ids are unique: the removed id is
/// gone, every other id stays, and the kept ids are still unique and in
/// order. Used to restore the channel invariant after an unsubscribe.
pub proof fn lemma_remove_id_props(conns: Seq<Seq<u8>>, id: Seq<u8>)
    requires
        forall|p: int, q: int| 0 <= p < q < conns.len() ==> conns[p] != conns[q],
    ensures
        !spec_contains_id(spec_remove_id(conns, id), id),
        forall|x: Seq<u8>|
            x != id ==> (spec_contains_id(spec_remove_id(conns, id), x) == spec_contains_id(
                conns,
                x,
            )),
        spec_remove_id(conns, id).len() <= conns.len(),
        forall|i: int, j: int|
            0 <= i < j < spec_remove_id(conns, id).len() ==> spec_remove_id(conns, id)[i]
                != spec_remove_id(conns, id)[j],
    decreases conns,
{
    if conns.len() > 0 {
        let tail = conns.subrange(1, conns.len() as int);
        assert forall|p: int, q: int| 0 <= p < q < tail.len() implies tail[p] != tail[q] by {
            assert(tail[p] == conns[p + 1] && tail[q] == conns[q + 1]);
        }
        lemma_remove_id_props(tail, id);
        let r = spec_remove_id(conns, id);
        let rt = spec_remove_id(tail, id);
        if conns[0] == id {
            assert(r == rt);
            assert forall|x: Seq<u8>|
                x != id implies (spec_contains_id(r, x) == spec_contains_id(conns, x)) by {
                if spec_contains_id(conns, x) {
                    let k = choose|k: int| 0 <= k < conns.len() && conns[k] == x;
                    assert(k > 0);
                    assert(tail[k - 1] == x);
                    assert(spec_contains_id(tail, x));
                }
                if spec_contains_id(tail, x) {
                    let k = choose|k: int| 0 <= k < tail.len() && tail[k] == x;
                    assert(conns[k + 1] == x);
                }
            }
        } else {
            assert(r =~= seq![conns[0]] + rt);
            assert(!spec_contains_id(r, id)) by {
                if spec_contains_id(r, id) {
                    let k = choose|k: int| 0 <= k < r.len() && r[k] == id;
                    assert(k > 0);
                    assert(rt[k - 1] == id);
                    assert(spec_contains_id(rt, id));
                }
            }
            assert forall|x: Seq<u8>|
                x != id implies (spec_contains_id(r, x) == spec_contains_id(conns, x)) by {
                if spec_contains_id(conns, x) {
                    let k = choose|k: int| 0 <= k < conns.len() && conns[k] == x;
                    if k == 0 {
                        assert(r[0] == x);
                    } else {
                        assert(tail[k - 1] == x);
                        assert(spec_contains_id(tail, x));
                        assert(spec_contains_id(rt, x));
                        let k2 = choose|k2: int| 0 <= k2 < rt.len() && rt[k2] == x;
                        assert(r[k2 + 1] == x);
                    }
                }
                if spec_contains_id(r, x) {
                    let k = choose|k: int| 0 <= k < r.len() && r[k] == x;
                    if k == 0 {
                        assert(conns[0] == x);
                    } else {
                        assert(rt[k - 1] == x);
                        assert(spec_contains_id(rt, x));
                        assert(spec_contains_id(tail, x));
                        let k2 = choose|k2: int| 0 <= k2 < tail.len() && tail[k2] == x;
                        assert(conns[k2 + 1] == x);
                    }
                }
            }
            assert forall|i: int, j: int| 0 <= i < j < r.len() implies r[i] != r[j] by {
                if i == 0 {
                    assert(r[j] == rt[j - 1]);
                    lemma_remove_id_member(tail, id, j - 1);
                    let w = choose|w: int| 0 <= w < tail.len() && tail[w] == rt[j - 1];
                    assert(conns[w + 1] == rt[j - 1]);
                    assert(conns[0] != conns[w + 1]);
                } else {
                    assert(r[i] == rt[i - 1] && r[j] == rt[j - 1]);
                }
            }
        }
    }
}

/// Every kept id occurs in the original table.
proof fn lemma_remove_id_member(conns: Seq<Seq<u8>>, id: Seq<u8>, i: int)
    requires
        0 <= i < spec_remove_id(conns, id).len(),
    ensures
        spec_contains_id(conns, spec_remove_id(conns, id)[i]),
    decreases conns,
{
    if conns.len() > 0 {
        let tail = conns.subrange(1, conns.len() as int);
        let r = spec_remove_id(conns, id);
        let rt = spec_remove_id(tail, id);
        if conns[0] == id {
            lemma_remove_id_member(tail, id, i);
            let k = choose|k: int| 0 <= k < tail.len() && tail[k] == rt[i];
            assert(conns[k + 1] == rt[i]);
        } else {
            assert(r =~= seq![conns[0]] + rt);
            if i == 0 {
            } else {
                lemma_remove_id_member(tail, id, i - 1);
                let k = choose|k: int| 0 <= k < tail.len() && tail[k] == rt[i - 1];
                assert(conns[k + 1] == rt[i - 1]);
            }
        }
    }
}

/// What member-entry removal keeps when the keys are unique: the removed key
/// is gone, every kept entry comes from the original table, and the kept
/// keys are still unique.
pub proof fn lemma_remove_key_props(kvs: Seq<(Seq<u8>, Json)>, key: Seq<u8>)
    requires
        forall|p: int, q: int|
            0 <= p < q < kvs.len() ==> (#[trigger] kvs[p]).0 != (#[trigger] kvs[q]).0,
    ensures
        forall|i: int|
            0 <= i < spec_remove_key(kvs, key).len() ==> (#[trigger] spec_remove_key(kvs, key)[i]).0
                != key,
        forall|i: int|
            0 <= i < spec_remove_key(kvs, key).len() ==> exists|j: int|
                0 <= j < kvs.len() && kvs[j] == #[trigger] spec_remove_key(kvs, key)[i],
        forall|i: int, j: int|
            0 <= i < j < spec_remove_key(kvs, key).len() ==> (#[trigger] spec_remove_key(
                kvs,
                key,
            )[i]).0 != (#[trigger] spec_remove_key(kvs, key)[j]).0,
    decreases kvs,
{
    if kvs.len() > 0 {
        let tail = kvs.subrange(1, kvs.len() as int);
        assert forall|p: int, q: int|
            0 <= p < q < tail.len() implies (#[trigger] tail[p]).0 != (#[trigger] tail[q]).0 by {
            assert(tail[p] == kvs[p + 1] && tail[q] == kvs[q + 1]);
        }
        lemma_remove_key_props(tail, key);
        let r = spec_remove_key(kvs, key);
        let rt = spec_remove_key(tail, key);
        assert forall|i: int|
            0 <= i < r.len() implies exists|j: int|
            0 <= j < kvs.len() && kvs[j] == #[trigger] spec_remove_key(kvs, key)[i] by {
            if kvs[0].0 == key {
                assert(r == rt);
                let j = choose|j: int|
                    0 <= j < tail.len() && tail[j] == #[trigger] spec_remove_key(tail, key)[i];
                assert(kvs[j + 1] == r[i]);
            } else {
                assert(r =~= seq![kvs[0]] + rt);
                if i == 0 {
                    assert(kvs[0] == r[0]);
                } else {
                    let j = choose|j: int|
                        0 <= j < tail.len() && tail[j] == #[trigger] spec_remove_key(tail, key)[
                        i - 1];
                    assert(kvs[j + 1] == r[i]);
                }
            }
        }
        assert forall|i: int, j: int|
            0 <= i < j < r.len() implies (#[trigger] spec_remove_key(kvs, key)[i]).0 != (
        #[trigger] spec_remove_key(kvs, key)[j]).0 by {
            if kvs[0].0 == key {
                assert(r == rt);
            } else {
                assert(r =~= seq![kvs[0]] + rt);
                if i == 0 {
                    let w = choose|w: int|
                        0 <= w < tail.len() && tail[w] == #[trigger] spec_remove_key(tail, key)[
                        j - 1];
                    assert(kvs[w + 1] == rt[j - 1]);
                    assert(kvs[0].0 != kvs[w + 1].0);
                } else {
                    assert(r[i] == rt[i - 1] && r[j] == rt[j - 1]);
                }
            }
        }
    }
}

// ---------------------------------------------------------------------------
// Subscription authentication
// ---------------------------------------------------------------------------

/// The bytes that a subscription signature covers: socket id, channel name,
/// and the member data when there is any, joined by colons.
pub open spec fn spec_sig_message(
    socket_id: Seq<u8>,
    name: Seq<u8>,
    channel_data: Option<Seq<u8>>,
) -> Seq<u8> {
    socket_id + seq![0x3au8] + name + (match channel_data {
        Some(c) => seq![0x3au8] + c,
        None => Seq::empty(),
    })
}

/// The member-data string of a subscription payload, when there is one.
pub open spec fn spec_payload_channel_data(p: PayloadSpec) -> Option<Seq<u8>> {
    match spec_lookup(p.data, names::channel_data()) {
        Some(c) => match c {
            Json::Str(s) => Some(s),
            _ => None,
        },
        None => None,
    }
}

/// A well-shaped auth string for the expected tag: exactly one colon, and
/// the part after it hex-decodes to the tag.
pub open spec fn spec_auth_string_valid(a: Seq<u8>, expected: Seq<u8>) -> bool {
    exists|i: int|
        0 <= i < a.len() && #[trigger] a[i] == 0x3a && (forall|j: int|
            0 <= j < a.len() && j != i ==> a[j] != 0x3a) && crypto::spec_hex_decode(
            a.subrange(i + 1, a.len() as int),
        ) == Some(expected)
}

/// The subscription payload authenticates the client for this channel.
pub open spec fn spec_auth_ok(
    p: PayloadSpec,
    socket_id: Seq<u8>,
    name: Seq<u8>,
    secret: Seq<u8>,
) -> bool {
    match spec_lookup(p.data, names::auth()) {
        Some(a) => match a {
            Json::Str(s) => spec_auth_string_valid(
                s,
                crypto::hmac_sha256(
                    secret,
                    spec_sig_message(socket_id, name, spec_payload_channel_data(p)),
                ),
            ),
            _ => false,
        },
        None => false,
    }
}

/// What a presence subscription stores: the member-data string parsed as a
/// JSON object whose `user_id` is a string.
pub open spec fn spec_member_of(p: PayloadSpec) -> Option<Seq<(Seq<u8>, Json)>> {
    match spec_payload_channel_data(p) {
        Some(txt) => match json::spec_parse_json(txt) {
            Some(v) => match v {
                Json::Obj(m) => match spec_lookup(m, names::user_id()) {
                    Some(u) => match u {
                        Json::Str(_) => Some(m),
                        _ => None,
                    },
                    _ => None,
                },
                _ => None,
            },
            None => None,
        },
        None => None,
    }
}

impl Channel {
    /// Check the `auth` field of a subscription payload: its shape is
    /// `key:hex`, and the hex half must decode to the HMAC-SHA-256 tag of
    /// the signature message under the application secret.
    #[verifier::loop_isolation(false)]
    pub fn verify_signature(&self, socket_id: &[u8], app: &App, payload: &Payload) -> (r: Result<
        (),
        FastSocketError,
    >)
        ensures
            r is Ok <==> spec_auth_ok(payload@, socket_id@, self@.name, app.secret@),
            r is Err ==> r == Err::<(), FastSocketError>(FastSocketError::InvalidSignatureError),
    {
        let auth = match payload.get_data_str(names::auth_bytes().as_slice()) {
            Some(a) => a,
            None => {
                return Err(FastSocketError::InvalidSignatureError);
            },
        };
        // find the colon; a valid auth string has exactly one
        let n = auth.len();
        let mut colon: usize = 0;
        let mut ncolons: usize = 0;
        let mut second: usize = 0;
        let mut i: usize = 0;
        while i < n
            invariant
                i <= n,
                n == auth@.len(),
                ncolons <= i,
                ncolons == 0 ==> (forall|j: int| 0 <= j < i ==> auth@[j] != 0x3a),
                ncolons >= 1 ==> colon < i && auth@[colon as int] == 0x3a,
                ncolons == 1 ==> (forall|j: int|
                    0 <= j < i && j != colon ==> auth@[j] != 0x3a),
                ncolons >= 2 ==> second < i && auth@[second as int] == 0x3a && colon < second,
            decreases n - i,
        {
            if auth[i] == 0x3a {
                if ncolons == 0 {
                    colon = i;
                } else if ncolons == 1 {
                    second = i;
                }
                ncolons = ncolons + 1;
            }
            i = i + 1;
        }
        let ghost expected_tag = crypto::hmac_sha256(
            app.secret@,
            spec_sig_message(socket_id@, self@.name, spec_payload_channel_data(payload@)),
        );
        if ncolons != 1 {
            proof {
                if spec_auth_string_valid(auth@, expected_tag) {
                    let w = choose|w: int|
                        0 <= w < auth@.len() && #[trigger] auth@[w] == 0x3a && (forall|j: int|
                            0 <= j < auth@.len() && j != w ==> auth@[j] != 0x3a)
                            && crypto::spec_hex_decode(
                            auth@.subrange(w + 1, auth@.len() as int),
                        ) == Some(expected_tag);
                    if ncolons == 0 {
                        assert(auth@[w] != 0x3a);
                    } else {
                        // two distinct colons cannot both equal the witness
                        if w != colon {
                            assert(auth@[colon as int] != 0x3a);
                        } else {
                            assert(auth@[second as int] != 0x3a);
                        }
                    }
                }
            }
            return Err(FastSocketError::InvalidSignatureError);
        }
        let sig_hex = vstd::slice::slice_subrange(auth.as_slice(), colon + 1, n);
        let decoded = match crypto::hex_decode(sig_hex) {
            Some(d) => d,
            None => {
                proof {
                    if spec_auth_string_valid(auth@, expected_tag) {
                        let w = choose|w: int|
                            0 <= w < auth@.len() && #[trigger] auth@[w] == 0x3a && (forall|j: int|
                                0 <= j < auth@.len() && j != w ==> auth@[j] != 0x3a)
                                && crypto::spec_hex_decode(
                                auth@.subrange(w + 1, auth@.len() as int),
                            ) == Some(expected_tag);
                        assert(w == colon);
                    }
                }
                return Err(FastSocketError::InvalidSignatureError);
            },
        };
        // the signature message: socket_id ":" name [":" channel_data]
        let mut msg = bytestr::to_vec(socket_id);
        msg.push(0x3a);
        let mut name_part = bytestr::to_vec(self.name.as_slice());
        msg.append(&mut name_part);
        match payload.get_data_str(names::channel_data_bytes().as_slice()) {
            Some(cd) => {
                msg.push(0x3a);
                let mut cd_part = bytestr::to_vec(cd.as_slice());
                msg.append(&mut cd_part);
                proof {
                    assert(msg@ =~= spec_sig_message(
                        socket_id@,
                        self@.name,
                        spec_payload_channel_data(payload@),
                    ));
                }
            },
            None => {
                proof {
                    assert(msg@ =~= spec_sig_message(
                        socket_id@,
                        self@.name,
                        spec_payload_channel_data(payload@),
                    ));
                }
            },
        }
        let expected = crypto::hmac_sha256_sign(app.secret.as_slice(), msg.as_slice());
        let good = bytestr::constant_time_eq(expected.as_slice(), decoded.as_slice());
        proof {
            if good {
                assert(auth@[colon as int] == 0x3a);
                assert(crypto::spec_hex_decode(auth@.subrange(colon + 1, auth@.len() as int))
                    == Some(expected_tag));
            } else {
                if spec_auth_string_valid(auth@, expected_tag) {
                    let w = choose|w: int|
                        0 <= w < auth@.len() && #[trigger] auth@[w] == 0x3a && (forall|j: int|
                            0 <= j < auth@.len() && j != w ==> auth@[j] != 0x3a)
                            && crypto::spec_hex_decode(
                            auth@.subrange(w + 1, auth@.len() as int),
                        ) == Some(expected_tag);
                    assert(w == colon);
                }
            }
        }
        if good {
            Ok(())
        } else {
            Err(FastSocketError::InvalidSignatureError)
        }
    }
}


// ---------------------------------------------------------------------------
// Subscribing
// ---------------------------------------------------------------------------

/// The `user_id` value stored for a member, `null` when it is missing.
pub open spec fn member_user_id(v: Json) -> Json {
    match v {
        Json::Obj(f) => match spec_lookup(f, names::user_id()) {
            Some(u) => u,
            None => Json::Null,
        },
        _ => Json::Null,
    }
}

/// The `user_id` string of a member, used as the hash key.
pub open spec fn member_user_key(v: Json) -> Seq<u8> {
    match member_user_id(v) {
        Json::Str(s) => s,
        _ => Seq::empty(),
    }
}

/// The `user_info` value stored for a member, `null` when it is missing.
pub open spec fn member_user_info(v: Json) -> Json {
    match v {
        Json::Obj(f) => match spec_lookup(f, names::user_info()) {
            Some(u) => u,
            None => Json::Null,
        },
        _ => Json::Null,
    }
}

/// The member ids, in table order.
pub open spec fn spec_presence_ids(data: Seq<(Seq<u8>, Json)>) -> Seq<Json>
    decreases data,
{
    if data.len() == 0 {
        Seq::empty()
    } else {
        seq![member_user_id(data[0].1)] + spec_presence_ids(data.subrange(1, data.len() as int))
    }
}

/// The member info map, keyed by user id, in table order.
pub open spec fn spec_presence_hash(data: Seq<(Seq<u8>, Json)>) -> Seq<(Seq<u8>, Json)>
    decreases data,
{
    if data.len() == 0 {
        Seq::empty()
    } else {
        seq![(member_user_key(data[0].1), member_user_info(data[0].1))] + spec_presence_hash(
            data.subrange(1, data.len() as int),
        )
    }
}

/// The data of a presence `subscription_succeeded` reply:
/// `{presence: {ids, hash, count}}`.
pub open spec fn spec_presence_data(data: Seq<(Seq<u8>, Json)>) -> Seq<(Seq<u8>, Json)> {
    seq![
        (
            names::presence(),
            Json::Obj(
                seq![
                    (names::ids(), Json::Arr(spec_presence_ids(data))),
                    (names::hash(), Json::Obj(spec_presence_hash(data))),
                    (names::count(), Json::Int(data.len() as int)),
                ],
            ),
        ),
    ]
}

/// The broadcast sent when a member joins a presence channel.
pub open spec fn spec_member_added(name: Seq<u8>, m: Seq<(Seq<u8>, Json)>) -> PayloadSpec {
    PayloadSpec { event: names::member_added(), channel: name, data: m }
}

/// The broadcast sent when a member leaves a presence channel.
pub open spec fn spec_member_removed(name: Seq<u8>, m: Seq<(Seq<u8>, Json)>) -> PayloadSpec {
    PayloadSpec { event: names::member_removed(), channel: name, data: m }
}

fn exec_member_user_id(v: &JsonValue) -> (r: JsonValue)
    ensures
        r@ == member_user_id(v@),
{
    match v {
        JsonValue::Obj(f) => match crate::payload::lookup(f, names::user_id_bytes().as_slice()) {
            Some(u) => crate::payload::clone_value(u),
            None => JsonValue::Null,
        },
        _ => JsonValue::Null,
    }
}

fn exec_member_user_key(v: &JsonValue) -> (r: Vec<u8>)
    ensures
        r@ == member_user_key(v@),
{
    let u = exec_member_user_id(v);
    match u {
        JsonValue::Str(s) => s,
        _ => Vec::new(),
    }
}

fn exec_member_user_info(v: &JsonValue) -> (r: JsonValue)
    ensures
        r@ == member_user_info(v@),
{
    match v {
        JsonValue::Obj(f) => match crate::payload::lookup(f, names::user_info_bytes().as_slice()) {
            Some(u) => crate::payload::clone_value(u),
            None => JsonValue::Null,
        },
        _ => JsonValue::Null,
    }
}


/// Everything `subscribe` guarantees, relating the channel before and after,
/// the subscriber, the application secret, the payload, and the outcome.
pub open spec fn subscribe_outcome(
    oldc: ChannelSpec,
    newc: ChannelSpec,
    socket_id: Seq<u8>,
    secret: Seq<u8>,
    p: PayloadSpec,
    r: Result<Seq<SendActionSpec>, FastSocketError>,
) -> bool {
    &&& newc.name == oldc.name
    &&& newc.kind == oldc.kind
    &&& (r is Err ==> newc == oldc)
    &&& (oldc.kind == ChannelKind::Public ==> r is Ok)
    &&& ((oldc.kind == ChannelKind::Private || oldc.kind == ChannelKind::Encrypted) ==> (
        (r is Ok <==> spec_auth_ok(p, socket_id, oldc.name, secret)) && (r is Err ==> r == Err::<
            Seq<SendActionSpec>,
            FastSocketError,
        >(FastSocketError::InvalidSignatureError))))
    &&& (oldc.kind == ChannelKind::Presence ==> (r is Ok <==> spec_auth_ok(
        p,
        socket_id,
        oldc.name,
        secret,
    ) && spec_member_of(p) is Some))
    &&& (r is Ok ==> newc.connections == spec_insert_id(oldc.connections, socket_id))
    &&& ((r is Ok && oldc.kind != ChannelKind::Presence) ==> newc.channel_data
        == oldc.channel_data && r->Ok_0 == seq![
        SendActionSpec {
            socket_id: socket_id,
            payload: spec_subscription_succeeded(oldc.name, Seq::empty()),
        },
    ])
    &&& ((r is Ok && oldc.kind == ChannelKind::Presence) ==> newc.channel_data == spec_set(
        oldc.channel_data,
        socket_id,
        Json::Obj(spec_member_of(p)->Some_0),
    ) && r->Ok_0 == seq![
        SendActionSpec {
            socket_id: socket_id,
            payload: spec_subscription_succeeded(oldc.name, spec_presence_data(newc.channel_data)),
        },
    ] + spec_send_all(
        spec_remove_id(newc.connections, socket_id),
        spec_member_added(oldc.name, spec_member_of(p)->Some_0),
    ))
}

impl Channel {
    /// The presence summary of the current member table.
    #[verifier::loop_isolation(false)]
    fn build_presence_data(&self) -> (r: Vec<(Vec<u8>, JsonValue)>)
        requires
            self@.channel_data.len() < 0x8000000000000000,
        ensures
            json::view_obj(r@) == spec_presence_data(self@.channel_data),
    {
        proof {
            json::lemma_view_obj_index(self.channel_data@);
        }
        let ghost data = self@.channel_data;
        let n = self.channel_data.len();
        let mut ids: Vec<JsonValue> = Vec::new();
        let mut hash: Vec<(Vec<u8>, JsonValue)> = Vec::new();
        let mut i: usize = 0;
        while i < n
            invariant
                i <= n,
                n == self.channel_data@.len(),
                json::view_obj(self.channel_data@) == data,
                data.len() == n,
                forall|j: int|
                    0 <= j < n ==> data[j] == (
                        self.channel_data@[j].0@,
                        self.channel_data@[j].1@,
                    ),
                json::view_arr(ids@) =~= spec_presence_ids(data.subrange(0, i as int)),
                json::view_obj(hash@) =~= spec_presence_hash(data.subrange(0, i as int)),
            decreases n - i,
        {
            proof {
                lemma_presence_push(data.subrange(0, i as int), data[i as int]);
                assert(data.subrange(0, i as int).push(data[i as int]) =~= data.subrange(
                    0,
                    i as int + 1,
                ));
            }
            let ghost pre_ids = ids@;
            let ghost pre_hash = hash@;
            let uid = exec_member_user_id(&self.channel_data[i].1);
            ids.push(uid);
            let key = exec_member_user_key(&self.channel_data[i].1);
            let info = exec_member_user_info(&self.channel_data[i].1);
            hash.push((key, info));
            proof {
                json::lemma_view_arr_index(pre_ids);
                json::lemma_view_arr_index(ids@);
                assert(json::view_arr(ids@) =~= json::view_arr(pre_ids).push(
                    member_user_id(data[i as int].1),
                ));
                json::lemma_view_obj_index(pre_hash);
                json::lemma_view_obj_index(hash@);
                assert(json::view_obj(hash@) =~= json::view_obj(pre_hash).push(
                    (member_user_key(data[i as int].1), member_user_info(data[i as int].1)),
                ));
            }
            i = i + 1;
        }
        proof {
            assert(data.subrange(0, n as int) =~= data);
        }
        let count = n as u64;
        let mut inner: Vec<(Vec<u8>, JsonValue)> = Vec::new();
        inner.push((names::ids_bytes(), JsonValue::Arr(ids)));
        inner.push((names::hash_bytes(), JsonValue::Obj(hash)));
        inner.push((names::count_bytes(), JsonValue::Int(count as i64)));
        let mut out: Vec<(Vec<u8>, JsonValue)> = Vec::new();
        out.push((names::presence_bytes(), JsonValue::Obj(inner)));
        proof {
            json::lemma_view_obj_index(inner@);
            json::lemma_view_obj_index(out@);
            assert(json::view_obj(inner@) =~= seq![
                (names::ids(), Json::Arr(spec_presence_ids(data))),
                (names::hash(), Json::Obj(spec_presence_hash(data))),
                (names::count(), Json::Int(data.len() as int)),
            ]);
            assert(json::view_obj(out@) =~= spec_presence_data(data));
        }
        out
    }

    /// Insert the subscriber and acknowledge with
    /// `pusher_internal:subscription_succeeded`, carrying the given data.
    fn acknowledge(&mut self, client: &Client, data: Vec<(Vec<u8>, JsonValue)>) -> (r: SendAction)
        requires
            old(self).wf(),
        ensures
            final(self).wf(),
            final(self)@.connections == spec_insert_id(
                old(self)@.connections,
                client.socket_id@,
            ),
            final(self)@.name == old(self)@.name,
            final(self)@.kind == old(self)@.kind,
            final(self)@.channel_data == old(self)@.channel_data,
            r@ == (SendActionSpec {
                socket_id: client.socket_id@,
                payload: spec_subscription_succeeded(old(self)@.name, json::view_obj(data@)),
            }),
    {
        self.save_connection(bytestr::to_vec(client.socket_id.as_slice()));
        let reply = Payload::builder().event(names::subscription_succeeded_bytes().as_slice())
            .channel(self.name.as_slice()).data(data);
        let payload = match reply.build() {
            Ok(p) => p,
            Err(_) => {
                proof {
                    assert(false);
                }
                vstd::pervasive::unreached()
            },
        };
        SendAction { socket_id: bytestr::to_vec(client.socket_id.as_slice()), payload }
    }

    /// Subscribe a client. Public channels always accept; private and
    /// encrypted channels require a valid signature; presence channels
    /// additionally store the member data and announce the join. The reply
    /// to the subscriber comes first, then the broadcasts to the others.
    #[verifier::rlimit(60)]
    pub fn subscribe(&mut self, client: &Client, app: &App, payload: &Payload) -> (r: Result<
        Vec<SendAction>,
        FastSocketError,
    >)
        requires
            old(self).wf(),
            old(self)@.channel_data.len() + 1 < 0x8000000000000000,
        ensures
            final(self).wf(),
            match r {
                Ok(a) => subscribe_outcome(
                    old(self)@,
                    final(self)@,
                    client.socket_id@,
                    app.secret@,
                    payload@,
                    Ok(view_actions(a@)),
                ),
                Err(e) => subscribe_outcome(
                    old(self)@,
                    final(self)@,
                    client.socket_id@,
                    app.secret@,
                    payload@,
                    Err(e),
                ),
            },
    {
        let kind = self.kind;
        match kind {
            ChannelKind::Public => {
                let act = self.acknowledge(client, Vec::new());
                let mut actions: Vec<SendAction> = Vec::new();
                actions.push(act);
                proof {
                    lemma_view_actions_index(actions@);
                    assert(json::view_obj(Seq::<(Vec<u8>, JsonValue)>::empty()) =~= Seq::<
                        (Seq<u8>, Json),
                    >::empty());
                    assert(view_actions(actions@) =~= seq![actions@[0]@]);
                }
                Ok(actions)
            },
            ChannelKind::Private | ChannelKind::Encrypted => {
                match self.verify_signature(client.socket_id.as_slice(), app, payload) {
                    Ok(_) => {
                        let act = self.acknowledge(client, Vec::new());
                        let mut actions: Vec<SendAction> = Vec::new();
                        actions.push(act);
                        proof {
                            lemma_view_actions_index(actions@);
                            assert(json::view_obj(Seq::<(Vec<u8>, JsonValue)>::empty()) =~= Seq::<
                                (Seq<u8>, Json),
                            >::empty());
                            assert(view_actions(actions@) =~= seq![actions@[0]@]);
                        }
                        Ok(actions)
                    },
                    Err(e) => Err(e),
                }
            },
            ChannelKind::Presence => {
                match self.verify_signature(client.socket_id.as_slice(), app, payload) {
                    Ok(_) => {},
                    Err(e) => {
                        return Err(e);
                    },
                }
                // the member data: a JSON object with a string user_id
                let member = match payload.get_data_str(names::channel_data_bytes().as_slice()) {
                    Some(txt) => match json::parse_json(txt.as_slice()) {
                        Some(v) => match v {
                            JsonValue::Obj(m) => JsonValue::Obj(m),
                            _ => {
                                return Err(FastSocketError::InvalidMessageError);
                            },
                        },
                        None => {
                            return Err(FastSocketError::InvalidMessageError);
                        },
                    },
                    None => {
                        return Err(FastSocketError::InvalidMessageError);
                    },
                };
                let has_user = match &member {
                    JsonValue::Obj(m) => match crate::payload::lookup(
                        m,
                        names::user_id_bytes().as_slice(),
                    ) {
                        Some(u) => match u {
                            JsonValue::Str(_) => true,
                            _ => false,
                        },
                        None => false,
                    },
                    _ => false,
                };
                if !has_user {
                    return Err(FastSocketError::InvalidMessageError);
                }
                proof {
                    assert(spec_member_of(payload@) matches Some(m) && member@ == Json::Obj(m));
                }
                let ghost old_conns = self@.connections;
                let ghost old_data = self@.channel_data;
                // insert the subscriber, then remember the member data
                self.save_connection(bytestr::to_vec(client.socket_id.as_slice()));
                let member_copy = crate::payload::clone_value(&member);
                crate::payload::obj_set(
                    &mut self.channel_data,
                    client.socket_id.as_slice(),
                    member_copy,
                );
                proof {
                    json::lemma_view_obj_index(self.channel_data@);
                    crate::payload::lemma_spec_set_props(old_data, client.socket_id@, member@);
                    assert forall|i0: int|
                        0 <= i0 < self@.channel_data.len() implies spec_contains_id(
                        self@.connections,
                        (#[trigger] self@.channel_data[i0]).0,
                    ) by {
                        let entry = self@.channel_data[i0];
                        if entry == (client.socket_id@, member@) {
                        } else {
                            let j = choose|j: int|
                                0 <= j < old_data.len() && old_data[j] == entry;
                            assert(spec_contains_id(old_conns, entry.0));
                            let k = choose|k: int|
                                0 <= k < old_conns.len() && old_conns[k] == entry.0;
                            if spec_contains_id(old_conns, client.socket_id@) {
                            } else {
                                assert(self@.connections[k] == entry.0);
                            }
                        }
                    }
                    assert(self.wf());
                }
                let presence = self.build_presence_data();
                let reply = match Payload::builder().event(
                    names::subscription_succeeded_bytes().as_slice(),
                ).channel(self.name.as_slice()).data(presence).build() {
                    Ok(p) => p,
                    Err(_) => {
                        proof {
                            assert(false);
                        }
                        vstd::pervasive::unreached()
                    },
                };
                let act = SendAction {
                    socket_id: bytestr::to_vec(client.socket_id.as_slice()),
                    payload: reply,
                };
                // announce the join to everyone already subscribed
                let added = match Payload::builder().event(names::member_added_bytes().as_slice())
                    .channel(self.name.as_slice()).data(member_to_entries(member)).build() {
                    Ok(p) => p,
                    Err(_) => {
                        proof {
                            assert(false);
                        }
                        vstd::pervasive::unreached()
                    },
                };
                let others = self.broadcast_to_everyone_except(
                    client.socket_id.as_slice(),
                    &added,
                );
                let ghost others_view = view_actions(others@);
                let mut actions: Vec<SendAction> = Vec::new();
                actions.push(act);
                proof {
                    lemma_view_actions_index(actions@);
                    assert(view_actions(actions@) =~= seq![actions@[0]@]);
                }
                append_actions(&mut actions, others);
                proof {
                    assert(view_actions(actions@) =~= seq![
                        SendActionSpec {
                            socket_id: client.socket_id@,
                            payload: spec_subscription_succeeded(
                                old(self)@.name,
                                spec_presence_data(self@.channel_data),
                            ),
                        },
                    ] + spec_send_all(
                        spec_remove_id(self@.connections, client.socket_id@),
                        spec_member_added(old(self)@.name, spec_member_of(payload@)->Some_0),
                    ));
                }
                Ok(actions)
            },
        }
    }
}

/// The entries of a member object; the member is known to be an object.
fn member_to_entries(member: JsonValue) -> (r: Vec<(Vec<u8>, JsonValue)>)
    requires
        member@ matches Json::Obj(_),
    ensures
        member@ == Json::Obj(json::view_obj(r@)),
{
    match member {
        JsonValue::Obj(m) => m,
        _ => vstd::pervasive::unreached(),
    }
}

/// Append all actions of `more` to `acts`, in order.
#[verifier::loop_isolation(false)]
fn append_actions(acts: &mut Vec<SendAction>, more: Vec<SendAction>)
    ensures
        view_actions(final(acts)@) == view_actions(old(acts)@) + view_actions(more@),
{
    proof {
        lemma_view_actions_index(acts@);
        lemma_view_actions_index(more@);
    }
    let ghost before = view_actions(acts@);
    let ghost more_view = view_actions(more@);
    let n = more.len();
    let mut rest = more;
    while rest.len() > 0
        invariant
            rest@.len() <= n,
            n == more_view.len(),
            forall|j: int|
                0 <= j < rest@.len() ==> rest@[j]@ == more_view[n - rest@.len() + j],
            view_actions(acts@) =~= before + more_view.subrange(0, n - rest@.len()),
        decreases rest@.len(),
    {
        let ghost k = n - rest@.len();
        let a = rest.remove(0);
        proof {
            assert(a@ == more_view[k]);
        }
        let ghost a_view = a@;
        let ghost pre = acts@;
        acts.push(a);
        proof {
            lemma_view_actions_index(pre);
            lemma_view_actions_index(acts@);
            assert(view_actions(acts@) =~= view_actions(pre).push(a_view));
            assert(before + more_view.subrange(0, k + 1) =~= (before + more_view.subrange(
                0,
                k,
            )).push(more_view[k]));
            assert forall|j: int|
                0 <= j < rest@.len() implies rest@[j]@ == more_view[n - rest@.len() + j] by {}
        }
    }
    proof {
        assert(more_view.subrange(0, n as int) =~= more_view);
        assert(view_actions(acts@) =~= before + more_view);
    }
}

/// One join/leave step preserves the presence lemmas used above.
proof fn lemma_presence_push(data: Seq<(Seq<u8>, Json)>, x: (Seq<u8>, Json))
    ensures
        spec_presence_ids(data.push(x)) == spec_presence_ids(data).push(member_user_id(x.1)),
        spec_presence_hash(data.push(x)) == spec_presence_hash(data).push(
            (member_user_key(x.1), member_user_info(x.1)),
        ),
    decreases data,
{
    reveal_with_fuel(spec_presence_ids, 3);
    reveal_with_fuel(spec_presence_hash, 3);
    let q = data.push(x);
    if data.len() == 0 {
        assert(q =~= seq![x]);
        assert(data =~= Seq::<(Seq<u8>, Json)>::empty());
        assert(q.subrange(1, 1) =~= Seq::<(Seq<u8>, Json)>::empty());
        assert(spec_presence_ids(q) =~= Seq::<Json>::empty().push(member_user_id(x.1)));
        assert(spec_presence_hash(q) =~= Seq::<(Seq<u8>, Json)>::empty().push(
            (member_user_key(x.1), member_user_info(x.1)),
        ));
    } else {
        let tail = data.subrange(1, data.len() as int);
        lemma_presence_push(tail, x);
        assert(q.subrange(1, q.len() as int) =~= tail.push(x));
        assert(seq![member_user_id(data[0].1)] + spec_presence_ids(tail).push(member_user_id(x.1))
            =~= (seq![member_user_id(data[0].1)] + spec_presence_ids(tail)).push(
            member_user_id(x.1),
        ));
        assert(seq![(member_user_key(data[0].1), member_user_info(data[0].1))]
            + spec_presence_hash(tail).push((member_user_key(x.1), member_user_info(x.1))) =~= (
        seq![(member_user_key(data[0].1), member_user_info(data[0].1))] + spec_presence_hash(
            tail,
        )).push((member_user_key(x.1), member_user_info(x.1))));
    }
}


/// A well-formed channel has at most as many member entries as subscribers:
/// the member keys are distinct and each is a subscriber id.
pub proof fn lemma_channel_data_bounded(data: Seq<(Seq<u8>, Json)>, conns: Seq<Seq<u8>>)
    requires
        forall|i: int, j: int|
            0 <= i < j < data.len() ==> (#[trigger] data[i]).0 != (#[trigger] data[j]).0,
        forall|i: int|
            0 <= i < data.len() ==> spec_contains_id(conns, (#[trigger] data[i]).0),
        forall|i: int, j: int| 0 <= i < j < conns.len() ==> conns[i] != conns[j],
    ensures
        data.len() <= conns.len(),
{
    broadcast use vstd::set_lib::group_set_lib_default;
    broadcast use vstd::set::group_set_axioms;

    let keys = Seq::new(data.len(), |i: int| data[i].0);
    assert(keys.no_duplicates());
    assert(conns.no_duplicates());
    keys.unique_seq_to_set();
    conns.unique_seq_to_set();
    assert forall|x: Seq<u8>| keys.to_set().contains(x) implies conns.to_set().contains(x) by {
        let i = choose|i: int| 0 <= i < keys.len() && keys[i] == x;
        assert(spec_contains_id(conns, data[i].0));
        let k = choose|k: int| 0 <= k < conns.len() && conns[k] == x;
    }
    assert(keys.to_set().subset_of(conns.to_set()));
    vstd::set_lib::lemma_len_subset(keys.to_set(), conns.to_set());
}

} // verus!
