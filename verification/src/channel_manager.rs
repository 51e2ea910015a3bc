//! The channel registry: per-application channels keyed by name, created on
//! demand by a factory that picks the variant from the name prefix.

use vstd::prelude::*;
use crate::app::App;
use crate::bytestr;
use crate::bytestr::spec_starts_with;
use crate::channel::{
    subscribe_outcome, spec_remove_id, spec_remove_key, Channel, ChannelKind, ChannelSpec,
    SendAction, SendActionSpec,
};
use crate::client::Client;
use crate::errors::FastSocketError;
use crate::names;
use crate::payload::Payload;

verus! {

/// No channel may outgrow this member count; a subscription that would is
/// refused. It keeps every count far inside a signed 64-bit word.
pub const CHANNEL_MEMBER_LIMIT: u64 = 0x4000000000000000;

/// The variant a name creates, by prefix, most specific first.
pub open spec fn spec_kind_of(name: Seq<u8>) -> ChannelKind {
    if spec_starts_with(name, names::private_encrypted_prefix()) {
        ChannelKind::Encrypted
    } else if spec_starts_with(name, names::private_prefix()) {
        ChannelKind::Private
    } else if spec_starts_with(name, names::presence_prefix()) {
        ChannelKind::Presence
    } else {
        ChannelKind::Public
    }
}

/// Prefix precedence: a `private-encrypted-` name is always encrypted, never
/// merely private, even though `private-` is also a prefix of it.
pub proof fn lemma_factory_precedence(name: Seq<u8>)
    requires
        spec_starts_with(name, names::private_encrypted_prefix()),
    ensures
        spec_kind_of(name) == ChannelKind::Encrypted,
{
}

/// Build the channel a name asks for.
pub fn make_channel(name: &[u8]) -> (r: Channel)
    ensures
        r.wf(),
        r@.name == name@,
        r@.kind == spec_kind_of(name@),
        r@.connections == Seq::<Seq<u8>>::empty(),
        r@.channel_data == Seq::<(Seq<u8>, crate::json::Json)>::empty(),
{
    let kind: ChannelKind = if bytestr::starts_with(
        name,
        names::private_encrypted_prefix_bytes().as_slice(),
    ) {
        ChannelKind::Encrypted
    } else if bytestr::starts_with(name, names::private_prefix_bytes().as_slice()) {
        ChannelKind::Private
    } else if bytestr::starts_with(name, names::presence_prefix_bytes().as_slice()) {
        ChannelKind::Presence
    } else {
        ChannelKind::Public
    };
    Channel::new(bytestr::to_vec(name), kind)
}

pub open spec fn view_entries(entries: Seq<(Vec<u8>, Channel)>) -> Seq<(Seq<u8>, ChannelSpec)>
    decreases entries,
{
    if entries.len() == 0 {
        Seq::empty()
    } else {
        seq![(entries[0].0@, entries[0].1@)] + view_entries(
            entries.subrange(1, entries.len() as int),
        )
    }
}

pub broadcast proof fn lemma_view_entries_index(entries: Seq<(Vec<u8>, Channel)>)
    ensures
        (#[trigger] view_entries(entries)).len() == entries.len(),
        forall|i: int|
            0 <= i < entries.len() ==> view_entries(entries)[i] == (
                entries[i].0@,
                entries[i].1@,
            ),
    decreases entries,
{
    if entries.len() > 0 {
        let tail = entries.subrange(1, entries.len() as int);
        lemma_view_entries_index(tail);
        assert forall|i: int|
            0 <= i < entries.len() implies view_entries(entries)[i] == (
                entries[i].0@,
                entries[i].1@,
            ) by {
            if i > 0 {
                assert(view_entries(entries)[i] == view_entries(tail)[i - 1]);
                assert(tail[i - 1] == entries[i]);
            }
        }
    }
}

/// Index of the channel registered for the application and name, if any.
pub open spec fn spec_find_ch(
    entries: Seq<(Seq<u8>, ChannelSpec)>,
    app_id: Seq<u8>,
    name: Seq<u8>,
) -> Option<int> {
    if exists|i: int|
        0 <= i < entries.len() && (#[trigger] entries[i]).0 == app_id && entries[i].1.name
            == name {
        Some(
            choose|i: int|
                0 <= i < entries.len() && (#[trigger] entries[i]).0 == app_id && entries[i].1.name
                    == name,
        )
    } else {
        None
    }
}

/// The registry: one entry per application and channel name.
pub struct LocalChannelManager {
    entries: Vec<(Vec<u8>, Channel)>,
}

impl LocalChannelManager {
    /// The registered channels, each under its application id.
    pub closed spec fn view_registry(&self) -> Seq<(Seq<u8>, ChannelSpec)> {
        view_entries(self.entries@)
    }

    /// Channels well formed and bounded, and at most one channel per
    /// application id and name.
    pub closed spec fn wf(&self) -> bool {
        &&& forall|i: int| 0 <= i < self.entries@.len() ==> (#[trigger] self.entries@[i]).1.wf()
        &&& forall|i: int|
            0 <= i < self.entries@.len() ==> (#[trigger] self.entries@[i]).1@.connections.len()
                <= CHANNEL_MEMBER_LIMIT
        &&& forall|i: int, j: int|
            0 <= i < j < self.entries@.len() ==> !((#[trigger] self.entries@[i]).0@ == (
            #[trigger] self.entries@[j]).0@ && self.entries@[i].1@.name
                == self.entries@[j].1@.name)
    }

    /// An empty registry.
    pub fn new() -> (r: LocalChannelManager)
        ensures
            r.wf(),
            r.view_registry() == Seq::<(Seq<u8>, ChannelSpec)>::empty(),
    {
        let r = LocalChannelManager { entries: Vec::new() };
        proof {
            assert(view_entries(r.entries@) =~= Seq::<(Seq<u8>, ChannelSpec)>::empty());
        }
        r
    }

    fn find_index(&self, app_id: &[u8], name: &[u8]) -> (r: Option<usize>)
        requires
            self.wf(),
        ensures
            match r {
                Some(i) => i < self.view_registry().len() && self.view_registry()[i as int].0
                    == app_id@ && self.view_registry()[i as int].1.name == name@ && spec_find_ch(
                    self.view_registry(),
                    app_id@,
                    name@,
                ) == Some(i as int),
                None => spec_find_ch(self.view_registry(), app_id@, name@) is None,
            },
    {
        proof {
            lemma_view_entries_index(self.entries@);
        }
        let n = self.entries.len();
        let mut i: usize = 0;
        while i < n
            invariant
                i <= n,
                self.wf(),
                n == self.entries@.len(),
                view_entries(self.entries@).len() == n,
                forall|j: int|
                    0 <= j < n ==> view_entries(self.entries@)[j] == (
                        self.entries@[j].0@,
                        self.entries@[j].1@,
                    ),
                forall|j: int|
                    0 <= j < i ==> !((#[trigger] view_entries(self.entries@)[j]).0 == app_id@
                        && view_entries(self.entries@)[j].1.name == name@),
            decreases n - i,
        {
            if bytestr::bytes_eq(self.entries[i].0.as_slice(), app_id) && bytestr::bytes_eq(
                self.entries[i].1.get_name().as_slice(),
                name,
            ) {
                proof {
                    let reg = self.view_registry();
                    assert(reg[i as int].0 == app_id@ && reg[i as int].1.name == name@);
                    let k = choose|k: int|
                        0 <= k < reg.len() && (#[trigger] reg[k]).0 == app_id@ && reg[k].1.name
                            == name@;
                    if k != i {
                        assert(!(self.entries@[k].0@ == self.entries@[i as int].0@
                            && self.entries@[k].1@.name == self.entries@[i as int].1@.name));
                    }
                }
                return Some(i);
            }
            i = i + 1;
        }
        None
    }

    /// Is a channel registered under this application and name?
    pub fn find(&self, app_id: &[u8], name: &[u8]) -> (r: bool)
        requires
            self.wf(),
        ensures
            r == (spec_find_ch(self.view_registry(), app_id@, name@) is Some),
    {
        self.find_index(app_id, name).is_some()
    }

    /// The subscriber count of a registered channel.
    pub fn clients_count(&self, app_id: &[u8], name: &[u8]) -> (r: Option<u64>)
        requires
            self.wf(),
        ensures
            match r {
                Some(c) => spec_find_ch(self.view_registry(), app_id@, name@) matches Some(i)
                    && c == self.view_registry()[i].1.connections.len(),
                None => spec_find_ch(self.view_registry(), app_id@, name@) is None,
            },
    {
        proof {
            lemma_view_entries_index(self.entries@);
        }
        match self.find_index(app_id, name) {
            Some(i) => Some(self.entries[i].1.get_clients_count()),
            None => None,
        }
    }

    /// Register a channel for the name unless one exists (the factory picks
    /// the variant); either way say where it stands.
    pub fn find_or_create(&mut self, app_id: &[u8], name: &[u8]) -> (r: usize)
        requires
            old(self).wf(),
        ensures
            final(self).wf(),
            match spec_find_ch(old(self).view_registry(), app_id@, name@) {
                Some(i) => final(self).view_registry() == old(self).view_registry() && r == i,
                None => final(self).view_registry() == old(self).view_registry().push(
                    (
                        app_id@,
                        ChannelSpec {
                            name: name@,
                            kind: spec_kind_of(name@),
                            connections: Seq::empty(),
                            channel_data: Seq::empty(),
                        },
                    ),
                ) && r == old(self).view_registry().len(),
            },
            r < final(self).view_registry().len(),
            final(self).view_registry()[r as int].0 == app_id@,
            final(self).view_registry()[r as int].1.name == name@,
    {
        proof {
            lemma_view_entries_index(self.entries@);
        }
        match self.find_index(app_id, name) {
            Some(i) => i,
            None => {
                let ch = make_channel(name);
                let idx = self.entries.len();
                self.entries.push((bytestr::to_vec(app_id), ch));
                proof {
                    lemma_view_entries_index(self.entries@);
                    assert(view_entries(self.entries@) =~= view_entries(old(self).entries@).push(
                        (app_id@, self.entries@[idx as int].1@),
                    ));
                    let olds = old(self).entries@;
                    assert forall|p: int, q: int|
                        0 <= p < q < self.entries@.len() implies !((
                    #[trigger] self.entries@[p]).0@ == (#[trigger] self.entries@[q]).0@
                        && self.entries@[p].1@.name == self.entries@[q].1@.name) by {
                        if q == idx {
                            if self.entries@[p].0@ == app_id@ && self.entries@[p].1@.name
                                == name@ {
                                assert(view_entries(olds)[p].0 == app_id@ && view_entries(
                                    olds,
                                )[p].1.name == name@);
                            }
                        } else {
                            assert(self.entries@[p] == olds[p] && self.entries@[q] == olds[q]);
                        }
                    }
                }
                idx
            },
        }
    }

    /// Subscribe a client to the registered channel at `idx`. A channel at
    /// the member limit refuses with the capacity error.
    pub fn subscribe_at(
        &mut self,
        idx: usize,
        client: &Client,
        app: &App,
        payload: &Payload,
    ) -> (r: Result<Vec<SendAction>, FastSocketError>)
        requires
            old(self).wf(),
            idx < old(self).view_registry().len(),
        ensures
            final(self).wf(),
            final(self).view_registry().len() == old(self).view_registry().len(),
            forall|j: int|
                0 <= j < old(self).view_registry().len() && j != idx
                    ==> final(self).view_registry()[j] == old(self).view_registry()[j],
            final(self).view_registry()[idx as int].0 == old(self).view_registry()[idx as int].0,
            old(self).view_registry()[idx as int].1.connections.len() >= CHANNEL_MEMBER_LIMIT
                ==> r == Err::<Vec<SendAction>, FastSocketError>(
                FastSocketError::ServerCapacityError,
            ) && final(self).view_registry() == old(self).view_registry(),
            old(self).view_registry()[idx as int].1.connections.len() < CHANNEL_MEMBER_LIMIT
                ==> match r {
                Ok(a) => subscribe_outcome(
                    old(self).view_registry()[idx as int].1,
                    final(self).view_registry()[idx as int].1,
                    client.socket_id@,
                    app.secret@,
                    payload@,
                    Ok(crate::channel::view_actions(a@)),
                ),
                Err(e) => subscribe_outcome(
                    old(self).view_registry()[idx as int].1,
                    final(self).view_registry()[idx as int].1,
                    client.socket_id@,
                    app.secret@,
                    payload@,
                    Err(e),
                ),
            },
    {
        proof {
            lemma_view_entries_index(self.entries@);
        }
        let count = self.entries[idx].1.get_clients_count();
        if count >= CHANNEL_MEMBER_LIMIT {
            return Err(FastSocketError::ServerCapacityError);
        }
        // take the entry out, subscribe, and put it back in place
        let mut entry = self.entries.remove(idx);
        proof {
            let ch = entry.1@;
            crate::channel::lemma_channel_data_bounded(ch.channel_data, ch.connections);
        }
        let result = entry.1.subscribe(client, app, payload);
        self.entries.insert(idx, entry);
        proof {
            lemma_view_entries_index(self.entries@);
            assert(self.entries@ =~= old(self).entries@.update(
                idx as int,
                self.entries@[idx as int],
            ));
            assert(view_entries(self.entries@) =~= view_entries(old(self).entries@).update(
                idx as int,
                (self.entries@[idx as int].0@, self.entries@[idx as int].1@),
            ));
            let olds = old(self).entries@;
            assert forall|p: int, q: int|
                0 <= p < q < self.entries@.len() implies !((#[trigger] self.entries@[p]).0@ == (
            #[trigger] self.entries@[q]).0@ && self.entries@[p].1@.name
                == self.entries@[q].1@.name) by {
                assert(self.entries@[p].0@ == olds[p].0@ && self.entries@[p].1@.name
                    == olds[p].1@.name);
                assert(self.entries@[q].0@ == olds[q].0@ && self.entries@[q].1@.name
                    == olds[q].1@.name);
            }
        }
        result
    }

    /// Unsubscribe a socket id from the channel with the given name, if it
    /// is registered; an unknown channel is left as a no-op.
    pub fn unsubscribe(&mut self, app_id: &[u8], name: &[u8], socket_id: &[u8]) -> (r: bool)
        requires
            old(self).wf(),
        ensures
            final(self).wf(),
            r == (spec_find_ch(old(self).view_registry(), app_id@, name@) is Some),
            match spec_find_ch(old(self).view_registry(), app_id@, name@) {
                Some(i) => {
                    &&& final(self).view_registry().len() == old(self).view_registry().len()
                    &&& (forall|j: int|
                        0 <= j < old(self).view_registry().len() && j != i ==> final(self).view_registry()[j] == old(self).view_registry()[j])
                    &&& final(self).view_registry()[i].0 == old(self).view_registry()[i].0
                    &&& final(self).view_registry()[i].1.name == old(self).view_registry()[i].1.name
                    &&& final(self).view_registry()[i].1.kind == old(self).view_registry()[i].1.kind
                    &&& final(self).view_registry()[i].1.connections == spec_remove_id(
                        old(self).view_registry()[i].1.connections,
                        socket_id@,
                    )
                    &&& final(self).view_registry()[i].1.channel_data == spec_remove_key(
                        old(self).view_registry()[i].1.channel_data,
                        socket_id@,
                    )
                },
                None => final(self).view_registry() == old(self).view_registry(),
            },
    {
        proof {
            lemma_view_entries_index(self.entries@);
        }
        match self.find_index(app_id, name) {
            Some(i) => {
                let mut entry = self.entries.remove(i);
                proof {
                    crate::channel::lemma_remove_id_props(entry.1@.connections, socket_id@);
                }
                entry.1.unsubscribe(socket_id);
                self.entries.insert(i, entry);
                proof {
                    lemma_view_entries_index(self.entries@);
                    assert(self.entries@ =~= old(self).entries@.update(
                        i as int,
                        self.entries@[i as int],
                    ));
                    assert(view_entries(self.entries@) =~= view_entries(
                        old(self).entries@,
                    ).update(i as int, (self.entries@[i as int].0@, self.entries@[i as int].1@)));
                    let olds = old(self).entries@;
                    assert forall|p: int, q: int|
                        0 <= p < q < self.entries@.len() implies !((
                    #[trigger] self.entries@[p]).0@ == (#[trigger] self.entries@[q]).0@
                        && self.entries@[p].1@.name == self.entries@[q].1@.name) by {
                        assert(self.entries@[p].0@ == olds[p].0@ && self.entries@[p].1@.name
                            == olds[p].1@.name);
                        assert(self.entries@[q].0@ == olds[q].0@ && self.entries@[q].1@.name
                            == olds[q].1@.name);
                    }
                }
                true
            },
            None => false,
        }
    }


    /// The broadcast a client event produces: one send per subscriber of the
    /// named channel other than the sender; an unknown channel yields none.
    pub fn broadcast_except(
        &self,
        app_id: &[u8],
        name: &[u8],
        socket_id: &[u8],
        payload: &Payload,
    ) -> (r: Vec<SendAction>)
        requires
            self.wf(),
        ensures
            crate::channel::view_actions(r@) == (match spec_find_ch(
                self.view_registry(),
                app_id@,
                name@,
            ) {
                Some(i) => crate::channel::spec_send_all(
                    spec_remove_id(self.view_registry()[i].1.connections, socket_id@),
                    payload@,
                ),
                None => Seq::<SendActionSpec>::empty(),
            }),
    {
        proof {
            lemma_view_entries_index(self.entries@);
        }
        match self.find_index(app_id, name) {
            Some(i) => self.entries[i].1.broadcast_to_everyone_except(socket_id, payload),
            None => {
                let r: Vec<SendAction> = Vec::new();
                proof {
                    assert(crate::channel::view_actions(r@) =~= Seq::<SendActionSpec>::empty());
                }
                r
            },
        }
    }

    /// Facts of a well-formed registry that callers outside this module
    /// need: every channel's subscriber ids are pairwise distinct.
    pub proof fn lemma_registry_connections_unique(&self)
        requires
            self.wf(),
        ensures
            forall|e: int, p: int, q: int|
                0 <= e < self.view_registry().len() && 0 <= p < q
                    < self.view_registry()[e].1.connections.len()
                    ==> #[trigger] self.view_registry()[e].1.connections[p]
                    != #[trigger] self.view_registry()[e].1.connections[q],
    {
        lemma_view_entries_index(self.entries@);
    }

    /// Remove a closing client from every channel of every application.
    /// Afterwards no channel's subscriber table contains its socket id.
    #[verifier::loop_isolation(false)]
    pub fn remove_from_all_channels(&mut self, socket_id: &[u8])
        requires
            old(self).wf(),
        ensures
            final(self).wf(),
            final(self).view_registry().len() == old(self).view_registry().len(),
            forall|j: int|
                0 <= j < old(self).view_registry().len() ==> {
                    &&& (#[trigger] final(self).view_registry()[j]).0 == old(self).view_registry()[j].0
                    &&& final(self).view_registry()[j].1.name == old(self).view_registry()[j].1.name
                    &&& final(self).view_registry()[j].1.kind == old(self).view_registry()[j].1.kind
                    &&& final(self).view_registry()[j].1.connections == spec_remove_id(
                        old(self).view_registry()[j].1.connections,
                        socket_id@,
                    )
                    &&& final(self).view_registry()[j].1.channel_data == spec_remove_key(
                        old(self).view_registry()[j].1.channel_data,
                        socket_id@,
                    )
                },
            forall|j: int|
                0 <= j < final(self).view_registry().len()
                    ==> !crate::channel::spec_contains_id(
                    (#[trigger] final(self).view_registry()[j]).1.connections,
                    socket_id@,
                ),
    {
        proof {
            lemma_view_entries_index(self.entries@);
        }
        let n = self.entries.len();
        let mut i: usize = 0;
        while i < n
            invariant
                i <= n,
                self.wf(),
                n == self.entries@.len(),
                self.view_registry().len() == n,
                forall|j: int|
                    i <= j < n ==> #[trigger] self.view_registry()[j] == old(self).view_registry()[j],
                forall|j: int|
                    0 <= j < i ==> {
                        &&& (#[trigger] self.view_registry()[j]).0 == old(self).view_registry()[j].0
                        &&& self.view_registry()[j].1.name == old(self).view_registry()[j].1.name
                        &&& self.view_registry()[j].1.kind == old(self).view_registry()[j].1.kind
                        &&& self.view_registry()[j].1.connections == spec_remove_id(
                            old(self).view_registry()[j].1.connections,
                            socket_id@,
                        )
                        &&& self.view_registry()[j].1.channel_data == spec_remove_key(
                            old(self).view_registry()[j].1.channel_data,
                            socket_id@,
                        )
                    },
            decreases n - i,
        {
            let ghost pre = self.entries@;
            let mut entry = self.entries.remove(i);
            proof {
                crate::channel::lemma_remove_id_props(entry.1@.connections, socket_id@);
            }
            entry.1.unsubscribe(socket_id);
            self.entries.insert(i, entry);
            proof {
                lemma_view_entries_index(pre);
                lemma_view_entries_index(self.entries@);
                assert(self.entries@ =~= pre.update(i as int, self.entries@[i as int]));
                assert(view_entries(self.entries@) =~= view_entries(pre).update(
                    i as int,
                    (self.entries@[i as int].0@, self.entries@[i as int].1@),
                ));
                let olds = pre;
                assert forall|p: int, q: int|
                    0 <= p < q < self.entries@.len() implies !((
                #[trigger] self.entries@[p]).0@ == (#[trigger] self.entries@[q]).0@
                    && self.entries@[p].1@.name == self.entries@[q].1@.name) by {
                    assert(self.entries@[p].0@ == olds[p].0@ && self.entries@[p].1@.name
                        == olds[p].1@.name);
                    assert(self.entries@[q].0@ == olds[q].0@ && self.entries@[q].1@.name
                        == olds[q].1@.name);
                }
                assert forall|j: int|
                    0 <= j < i + 1 implies {
                        &&& (#[trigger] self.view_registry()[j]).0 == old(
                            self,
                        ).view_registry()[j].0
                        &&& self.view_registry()[j].1.name == old(self).view_registry()[j].1.name
                        &&& self.view_registry()[j].1.kind == old(self).view_registry()[j].1.kind
                        &&& self.view_registry()[j].1.connections == spec_remove_id(
                            old(self).view_registry()[j].1.connections,
                            socket_id@,
                        )
                        &&& self.view_registry()[j].1.channel_data == spec_remove_key(
                            old(self).view_registry()[j].1.channel_data,
                            socket_id@,
                        )
                    } by {
                    if j < i {
                        assert(self.view_registry()[j] == view_entries(pre)[j]);
                        assert(view_entries(pre)[j] == (pre[j].0@, pre[j].1@));
                    } else {
                        assert(view_entries(pre)[i as int] == old(self).view_registry()[i as int]);
                        assert(self.view_registry()[i as int] == (
                            self.entries@[i as int].0@,
                            self.entries@[i as int].1@,
                        ));
                    }
                }
            }
            i = i + 1;
        }
        proof {
            assert forall|j: int|
                0 <= j < self.view_registry().len() implies !crate::channel::spec_contains_id(
                (#[trigger] self.view_registry()[j]).1.connections,
                socket_id@,
            ) by {
                crate::channel::lemma_remove_id_props(
                    old(self).view_registry()[j].1.connections,
                    socket_id@,
                );
            }
        }
    }
}


} // verus!
