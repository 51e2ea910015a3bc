//! The wire envelope: parse, build, and compile (serialize, optionally
//! sealing the data under AES-256-GCM).

use vstd::prelude::*;
use crate::bytestr;
use crate::crypto;
use crate::errors::FastSocketError;
use crate::json;
use crate::json::{Json, JsonValue};
use crate::names;

verus! {

/// Mathematical model of an envelope.
pub ghost struct PayloadSpec {
    pub event: Seq<u8>,
    pub channel: Seq<u8>,
    pub data: Seq<(Seq<u8>, Json)>,
}

/// First-match lookup in an ordered member list.
pub open spec fn spec_lookup(kvs: Seq<(Seq<u8>, Json)>, key: Seq<u8>) -> Option<Json>
    decreases kvs.len(),
{
    if kvs.len() == 0 {
        None
    } else if kvs[0].0 == key {
        Some(kvs[0].1)
    } else {
        spec_lookup(kvs.subrange(1, kvs.len() as int), key)
    }
}

/// What parsing an envelope text yields, if anything: a JSON object with a
/// non-empty string `event`; `channel` a string or absent (absent reads as
/// empty); `data` an object, a string (re-parsed when it holds the text of
/// an object, as sealed data it reads as empty), or absent (empty).
pub open spec fn spec_payload_of(s: Seq<u8>) -> Option<PayloadSpec> {
    match json::spec_parse_json(s) {
        Some(v) => match v {
            Json::Obj(kvs) => match spec_lookup(kvs, names::event()) {
                Some(ev) => match ev {
                    Json::Str(event) => if event.len() == 0 {
                        None
                    } else {
                        let channel = match spec_lookup(kvs, names::channel()) {
                            Some(c) => match c {
                                Json::Str(cs) => cs,
                                _ => Seq::empty(),
                            },
                            None => Seq::empty(),
                        };
                        match spec_lookup(kvs, names::data()) {
                            Some(d) => match d {
                                Json::Obj(data) => Some(
                                    PayloadSpec { event, channel, data },
                                ),
                                Json::Str(dtxt) => match json::spec_parse_json(dtxt) {
                                    Some(dv) => match dv {
                                        Json::Obj(data) => Some(
                                            PayloadSpec { event, channel, data },
                                        ),
                                        _ => Some(
                                            PayloadSpec { event, channel, data: Seq::empty() },
                                        ),
                                    },
                                    None => Some(
                                        PayloadSpec { event, channel, data: Seq::empty() },
                                    ),
                                },
                                _ => None,
                            },
                            None => Some(
                                PayloadSpec { event, channel, data: Seq::empty() },
                            ),
                        }
                    },
                    _ => None,
                },
                None => None,
            },
            _ => None,
        },
        None => None,
    }
}

/// One event addressed to (or coming from) a channel, with an ordered data
/// mapping.
#[derive(Debug)]
pub struct Payload {
    event: Vec<u8>,
    channel: Vec<u8>,
    data: Vec<(Vec<u8>, JsonValue)>,
}

impl View for Payload {
    type V = PayloadSpec;

    closed spec fn view(&self) -> PayloadSpec {
        PayloadSpec {
            event: self.event@,
            channel: self.channel@,
            data: json::view_obj(self.data@),
        }
    }
}

/// First-match lookup in an ordered executable member list.
#[verifier::loop_isolation(false)]
pub fn lookup<'a>(kvs: &'a Vec<(Vec<u8>, JsonValue)>, key: &[u8]) -> (r: Option<&'a JsonValue>)
    ensures
        match r {
            Some(v) => spec_lookup(json::view_obj(kvs@), key@) == Some(v@),
            None => spec_lookup(json::view_obj(kvs@), key@) is None,
        },
{
    proof {
        json::lemma_view_obj_index(kvs@);
        assert(json::view_obj(kvs@).subrange(0, kvs@.len() as int) =~= json::view_obj(kvs@));
    }
    let n = kvs.len();
    let mut i: usize = 0;
    while i < n
        invariant
            i <= n,
            spec_lookup(json::view_obj(kvs@), key@) == spec_lookup(
                json::view_obj(kvs@).subrange(i as int, n as int),
                key@,
            ),
        decreases n - i,
    {
        let ghost cur = json::view_obj(kvs@).subrange(i as int, n as int);
        proof {
            assert(cur[0] == json::view_obj(kvs@)[i as int]);
            assert(cur.subrange(1, cur.len() as int) =~= json::view_obj(kvs@).subrange(
                i as int + 1,
                n as int,
            ));
        }
        if bytestr::bytes_eq(kvs[i].0.as_slice(), key) {
            return Some(&kvs[i].1);
        }
        i = i + 1;
    }
    proof {
        assert(json::view_obj(kvs@).subrange(n as int, n as int) =~= Seq::<(Seq<u8>, Json)>::empty());
    }
    None
}

/// Replace the value under `key`, or append the pair when the key is new.
pub open spec fn spec_set(kvs: Seq<(Seq<u8>, Json)>, key: Seq<u8>, v: Json) -> Seq<
    (Seq<u8>, Json),
>
    decreases kvs.len(),
{
    if kvs.len() == 0 {
        seq![(key, v)]
    } else if kvs[0].0 == key {
        seq![(key, v)] + kvs.subrange(1, kvs.len() as int)
    } else {
        seq![kvs[0]] + spec_set(kvs.subrange(1, kvs.len() as int), key, v)
    }
}

impl Payload {
    /// Parse an envelope from a JSON text.
    pub fn new(json_data: &[u8]) -> (r: Result<Payload, FastSocketError>)
        ensures
            match r {
                Ok(p) => spec_payload_of(json_data@) == Some(p@),
                Err(e) => spec_payload_of(json_data@) is None && e
                    == FastSocketError::InvalidMessageError,
            },
    {
        let parsed = match json::parse_json(json_data) {
            Some(v) => v,
            None => {
                return Err(FastSocketError::InvalidMessageError);
            },
        };
        let kvs = match parsed {
            JsonValue::Obj(kvs) => kvs,
            _ => {
                return Err(FastSocketError::InvalidMessageError);
            },
        };
        let event: Vec<u8> = {
            let key = names::event_bytes();
            match lookup(&kvs, key.as_slice()) {
                Some(v) => match v {
                    JsonValue::Str(s) => bytestr::to_vec(s.as_slice()),
                    _ => {
                        return Err(FastSocketError::InvalidMessageError);
                    },
                },
                None => {
                    return Err(FastSocketError::InvalidMessageError);
                },
            }
        };
        if event.len() == 0 {
            return Err(FastSocketError::InvalidMessageError);
        }
        let channel: Vec<u8> = {
            let key = names::channel_bytes();
            match lookup(&kvs, key.as_slice()) {
                Some(v) => match v {
                    JsonValue::Str(s) => bytestr::to_vec(s.as_slice()),
                    _ => Vec::new(),
                },
                None => Vec::new(),
            }
        };
        proof {
            assert(channel@ == (match spec_lookup(json::view_obj(kvs@), names::channel()) {
                Some(c) => match c {
                    Json::Str(cs) => cs,
                    _ => Seq::<u8>::empty(),
                },
                None => Seq::<u8>::empty(),
            }));
        }
        let key = names::data_bytes();
        let data: Vec<(Vec<u8>, JsonValue)> = match lookup(&kvs, key.as_slice()) {
            Some(v) => match v {
                JsonValue::Obj(d) => clone_members(d),
                JsonValue::Str(dtxt) => match json::parse_json(dtxt.as_slice()) {
                    Some(dv) => match dv {
                        JsonValue::Obj(d) => d,
                        // a string that is not an object's text (sealed
                        // data, say) reads as an empty mapping
                        _ => Vec::new(),
                    },
                    None => Vec::new(),
                },
                _ => {
                    return Err(FastSocketError::InvalidMessageError);
                },
            },
            None => Vec::new(),
        };
        proof {
            assert(json::view_obj(Seq::<(Vec<u8>, JsonValue)>::empty()) =~= Seq::<
                (Seq<u8>, Json),
            >::empty());
        }
        Ok(Payload { event, channel, data })
    }

    /// Start building an envelope.
    pub fn builder() -> (r: PayloadBuilder)
        ensures
            r@.event is None,
            r@.channel is None,
            r@.data == Seq::<(Seq<u8>, Json)>::empty(),
    {
        let r = PayloadBuilder { event: None, channel: None, data: Vec::new() };
        proof {
            assert(json::view_obj(r.data@) =~= Seq::<(Seq<u8>, Json)>::empty());
        }
        r
    }

    pub fn get_event(&self) -> (r: &Vec<u8>)
        ensures
            r@ == self@.event,
    {
        &self.event
    }

    pub fn get_channel(&self) -> (r: &Vec<u8>)
        ensures
            r@ == self@.channel,
    {
        &self.channel
    }

    pub fn get_data(&self) -> (r: &Vec<(Vec<u8>, JsonValue)>)
        ensures
            json::view_obj(r@) == self@.data,
    {
        &self.data
    }

    /// The string under `key` in the data mapping, when there is one.
    pub fn get_data_str<'a>(&'a self, key: &[u8]) -> (r: Option<&'a Vec<u8>>)
        ensures
            match r {
                Some(s) => spec_lookup(self@.data, key@) == Some(Json::Str(s@)),
                None => !(spec_lookup(self@.data, key@) matches Some(Json::Str(_))),
            },
    {
        match lookup(&self.data, key) {
            Some(v) => match v {
                JsonValue::Str(s) => Some(s),
                _ => None,
            },
            None => None,
        }
    }

    /// The integer under `key` in the data mapping, when there is one.
    pub fn get_data_int(&self, key: &[u8]) -> (r: Option<i64>)
        ensures
            match r {
                Some(i) => spec_lookup(self@.data, key@) == Some(Json::Int(i as int)),
                None => !(spec_lookup(self@.data, key@) matches Some(Json::Int(_))),
            },
    {
        match lookup(&self.data, key) {
            Some(v) => match v {
                JsonValue::Int(i) => Some(*i),
                _ => None,
            },
            None => None,
        }
    }

    /// The boolean under `key` in the data mapping, when there is one.
    pub fn get_data_bool(&self, key: &[u8]) -> (r: Option<bool>)
        ensures
            match r {
                Some(b) => spec_lookup(self@.data, key@) == Some(Json::Bool(b)),
                None => !(spec_lookup(self@.data, key@) matches Some(Json::Bool(_))),
            },
    {
        match lookup(&self.data, key) {
            Some(v) => match v {
                JsonValue::Bool(b) => Some(*b),
                _ => None,
            },
            None => None,
        }
    }

    /// Is there any entry under `key`?
    pub fn has_key(&self, key: &[u8]) -> (r: bool)
        ensures
            r == (spec_lookup(self@.data, key@) is Some),
    {
        lookup(&self.data, key).is_some()
    }

    pub fn is_empty(&self) -> (r: bool)
        ensures
            r == (self@.data.len() == 0),
    {
        proof {
            json::lemma_view_obj_index(self.data@);
        }
        self.data.len() == 0
    }

    pub fn len(&self) -> (r: usize)
        ensures
            r == self@.data.len(),
    {
        proof {
            json::lemma_view_obj_index(self.data@);
        }
        self.data.len()
    }
}

/// A deep copy of a member list.
pub(crate) fn clone_members(kvs: &Vec<(Vec<u8>, JsonValue)>) -> (r: Vec<(Vec<u8>, JsonValue)>)
    ensures
        json::view_obj(r@) == json::view_obj(kvs@),
{
    let mut out: Vec<(Vec<u8>, JsonValue)> = Vec::new();
    let n = kvs.len();
    let mut i: usize = 0;
    while i < n
        invariant
            i <= n,
            n == kvs@.len(),
            out@.len() == i,
            forall|j: int|
                0 <= j < i ==> out@[j].0@ == kvs@[j].0@ && out@[j].1@ == kvs@[j].1@,
        decreases n - i,
    {
        let k = bytestr::to_vec(kvs[i].0.as_slice());
        let v = clone_value(&kvs[i].1);
        out.push((k, v));
        i = i + 1;
    }
    proof {
        json::lemma_view_obj_index(kvs@);
        json::lemma_view_obj_index(out@);
        assert(json::view_obj(out@) =~= json::view_obj(kvs@));
    }
    out
}

/// A deep copy of a JSON value, equal under the view.
#[verifier::loop_isolation(false)]
pub(crate) fn clone_value(v: &JsonValue) -> (r: JsonValue)
    ensures
        r@ == v@,
    decreases v,
{
    match v {
        JsonValue::Null => JsonValue::Null,
        JsonValue::Bool(b) => JsonValue::Bool(*b),
        JsonValue::Int(i) => JsonValue::Int(*i),
        JsonValue::Str(s) => JsonValue::Str(bytestr::to_vec(s.as_slice())),
        JsonValue::Arr(els) => {
            let mut out: Vec<JsonValue> = Vec::new();
            let n = els.len();
            let mut i: usize = 0;
            while i < n
                invariant
                    i <= n,
                    n == els@.len(),
                    out@.len() == i,
                    forall|j: int| 0 <= j < i ==> out@[j]@ == els@[j]@,
                decreases n - i,
            {
                proof {
                    assert(decreases_to!(*v => *els));
                    assert(decreases_to!(*els => els@));
                    assert(decreases_to!(els@ => els@[i as int]));
                }
                let e = clone_value(&els[i]);
                out.push(e);
                i = i + 1;
            }
            proof {
                json::lemma_view_arr_index(els@);
                json::lemma_view_arr_index(out@);
                assert(json::view_arr(out@) =~= json::view_arr(els@));
            }
            JsonValue::Arr(out)
        },
        JsonValue::Obj(kvs) => {
            let mut out: Vec<(Vec<u8>, JsonValue)> = Vec::new();
            let n = kvs.len();
            let mut i: usize = 0;
            while i < n
                invariant
                    i <= n,
                    n == kvs@.len(),
                    out@.len() == i,
                    forall|j: int|
                        0 <= j < i ==> out@[j].0@ == kvs@[j].0@ && out@[j].1@ == kvs@[j].1@,
                decreases n - i,
            {
                proof {
                    assert(decreases_to!(*v => *kvs));
                    assert(decreases_to!(*kvs => kvs@));
                    assert(decreases_to!(kvs@ => kvs@[i as int]));
                    assert(decreases_to!(kvs@[i as int] => kvs@[i as int].1));
                }
                let k = bytestr::to_vec(kvs[i].0.as_slice());
                let e = clone_value(&kvs[i].1);
                out.push((k, e));
                i = i + 1;
            }
            proof {
                json::lemma_view_obj_index(kvs@);
                json::lemma_view_obj_index(out@);
                assert(json::view_obj(out@) =~= json::view_obj(kvs@));
            }
            JsonValue::Obj(out)
        },
    }
}

impl Clone for Payload {
    /// An identical envelope.
    fn clone(&self) -> (r: Self)
        ensures
            r@ == self@,
    {
        Payload {
            event: bytestr::to_vec(self.event.as_slice()),
            channel: bytestr::to_vec(self.channel.as_slice()),
            data: clone_members(&self.data),
        }
    }
}

/// Accumulates the parts of an envelope; `event` is required at build time.
pub struct PayloadBuilder {
    event: Option<Vec<u8>>,
    channel: Option<Vec<u8>>,
    data: Vec<(Vec<u8>, JsonValue)>,
}

/// Model of a builder in progress.
pub ghost struct PayloadBuilderSpec {
    pub event: Option<Seq<u8>>,
    pub channel: Option<Seq<u8>>,
    pub data: Seq<(Seq<u8>, Json)>,
}

impl View for PayloadBuilder {
    type V = PayloadBuilderSpec;

    closed spec fn view(&self) -> PayloadBuilderSpec {
        PayloadBuilderSpec {
            event: match self.event {
                Some(e) => Some(e@),
                None => None,
            },
            channel: match self.channel {
                Some(c) => Some(c@),
                None => None,
            },
            data: json::view_obj(self.data@),
        }
    }
}

impl PayloadBuilder {
    pub fn event(self, event: &[u8]) -> (r: Self)
        ensures
            r@.event == Some(event@),
            r@.channel == self@.channel,
            r@.data == self@.data,
    {
        PayloadBuilder { event: Some(bytestr::to_vec(event)), ..self }
    }

    pub fn channel(self, channel: &[u8]) -> (r: Self)
        ensures
            r@.channel == Some(channel@),
            r@.event == self@.event,
            r@.data == self@.data,
    {
        PayloadBuilder { channel: Some(bytestr::to_vec(channel)), ..self }
    }

    /// Replace the whole data mapping.
    pub fn data(self, data: Vec<(Vec<u8>, JsonValue)>) -> (r: Self)
        ensures
            r@.data == json::view_obj(data@),
            r@.event == self@.event,
            r@.channel == self@.channel,
    {
        PayloadBuilder { data, ..self }
    }

    /// Insert one entry, replacing an existing entry with the same key.
    pub fn add_data(self, key: &[u8], value: JsonValue) -> (r: Self)
        ensures
            r@.data == spec_set(self@.data, key@, value@),
            r@.event == self@.event,
            r@.channel == self@.channel,
    {
        let mut data = self.data;
        obj_set(&mut data, key, value);
        PayloadBuilder { data, ..self }
    }

    /// Finish: `event` must have been supplied.
    pub fn build(self) -> (r: Result<Payload, FastSocketError>)
        ensures
            match r {
                Ok(p) => self@.event == Some(p@.event) && p@.data == self@.data && p@.channel
                    == (match self@.channel {
                    Some(c) => c,
                    None => Seq::<u8>::empty(),
                }),
                Err(e) => self@.event is None && e == FastSocketError::InvalidMessageError,
            },
    {
        match self.event {
            Some(event) => {
                let channel = match self.channel {
                    Some(c) => c,
                    None => Vec::new(),
                };
                Ok(Payload { event, channel, data: self.data })
            },
            None => Err(FastSocketError::InvalidMessageError),
        }
    }
}

/// Insert one entry into an ordered member list, replacing an existing
/// entry with the same key.
#[verifier::loop_isolation(false)]
pub fn obj_set(kvs: &mut Vec<(Vec<u8>, JsonValue)>, key: &[u8], value: JsonValue)
    ensures
        json::view_obj(final(kvs)@) == spec_set(json::view_obj(old(kvs)@), key@, value@),
{
    let ghost orig = json::view_obj(kvs@);
    proof {
        json::lemma_view_obj_index(kvs@);
        assert(orig.subrange(0, 0) =~= Seq::<(Seq<u8>, Json)>::empty());
        assert(orig.subrange(0, orig.len() as int) =~= orig);
        assert(Seq::<(Seq<u8>, Json)>::empty() + spec_set(orig, key@, value@) =~= spec_set(
            orig,
            key@,
            value@,
        ));
    }
    let n = kvs.len();
    let mut i: usize = 0;
    while i < n
        invariant
            i <= n,
            n == kvs@.len(),
            orig == json::view_obj(kvs@),
            orig.len() == n,
            forall|j: int| 0 <= j < n ==> orig[j] == (kvs@[j].0@, kvs@[j].1@),
            forall|j: int| 0 <= j < i ==> orig[j].0 != key@,
            spec_set(orig, key@, value@) == spec_set_from(orig, key@, value@, i as int),
        decreases n - i,
    {
        if bytestr::bytes_eq(kvs[i].0.as_slice(), key) {
            let k = bytestr::to_vec(key);
            kvs.set(i, (k, value));
            proof {
                json::lemma_view_obj_index(kvs@);
                assert(json::view_obj(kvs@) =~= orig.update(i as int, (key@, value@)));
                lemma_spec_set_found(orig, key@, value@, i as int, json::view_obj(kvs@));
            }
            return ;
        }
        proof {
            lemma_spec_set_step(orig, key@, value@, i as int);
        }
        i = i + 1;
    }
    let k = bytestr::to_vec(key);
    kvs.push((k, value));
    proof {
        json::lemma_view_obj_index(kvs@);
        assert(json::view_obj(kvs@) =~= orig.push((key@, value@)));
        lemma_spec_set_append(orig, key@, value@);
    }
}

/// What `spec_set` builds: the new binding is present, every other entry
/// comes from the old list, and key uniqueness is preserved.
pub proof fn lemma_spec_set_props(kvs: Seq<(Seq<u8>, Json)>, key: Seq<u8>, v: Json)
    requires
        forall|p: int, q: int|
            0 <= p < q < kvs.len() ==> (#[trigger] kvs[p]).0 != (#[trigger] kvs[q]).0,
    ensures
        forall|i: int|
            0 <= i < spec_set(kvs, key, v).len() ==> (#[trigger] spec_set(kvs, key, v)[i] == (
                key,
                v,
            ) || (spec_set(kvs, key, v)[i].0 != key && exists|j: int|
                0 <= j < kvs.len() && kvs[j] == spec_set(kvs, key, v)[i])),
        forall|p: int, q: int|
            0 <= p < q < spec_set(kvs, key, v).len() ==> (#[trigger] spec_set(kvs, key, v)[p]).0
                != (#[trigger] spec_set(kvs, key, v)[q]).0,
        spec_set(kvs, key, v).len() <= kvs.len() + 1,
    decreases kvs,
{
    let r = spec_set(kvs, key, v);
    if kvs.len() == 0 {
        assert(r =~= seq![(key, v)]);
    } else if kvs[0].0 == key {
        let tail = kvs.subrange(1, kvs.len() as int);
        assert(r =~= seq![(key, v)] + tail);
        assert forall|i: int|
            0 <= i < r.len() implies (#[trigger] r[i] == (key, v) || (r[i].0 != key && exists|
        j: int|
            0 <= j < kvs.len() && kvs[j] == r[i])) by {
            if i > 0 {
                assert(r[i] == tail[i - 1]);
                assert(kvs[i] == r[i]);
                assert(kvs[0].0 != kvs[i].0);
            }
        }
        assert forall|p: int, q: int|
            0 <= p < q < r.len() implies (#[trigger] r[p]).0 != (#[trigger] r[q]).0 by {
            if p == 0 {
                assert(r[q] == kvs[q]);
                assert(kvs[0].0 != kvs[q].0);
            } else {
                assert(r[p] == kvs[p] && r[q] == kvs[q]);
            }
        }
    } else {
        let tail = kvs.subrange(1, kvs.len() as int);
        assert forall|p: int, q: int|
            0 <= p < q < tail.len() implies (#[trigger] tail[p]).0 != (#[trigger] tail[q]).0 by {
            assert(tail[p] == kvs[p + 1] && tail[q] == kvs[q + 1]);
        }
        lemma_spec_set_props(tail, key, v);
        let rt = spec_set(tail, key, v);
        assert(r =~= seq![kvs[0]] + rt);
        assert forall|i: int|
            0 <= i < r.len() implies (#[trigger] r[i] == (key, v) || (r[i].0 != key && exists|
        j: int|
            0 <= j < kvs.len() && kvs[j] == r[i])) by {
            if i == 0 {
                assert(kvs[0] == r[0]);
            } else {
                assert(r[i] == rt[i - 1]);
                if rt[i - 1] == (key, v) {
                } else {
                    let j = choose|j: int| 0 <= j < tail.len() && tail[j] == rt[i - 1];
                    assert(kvs[j + 1] == r[i]);
                }
            }
        }
        assert forall|p: int, q: int|
            0 <= p < q < r.len() implies (#[trigger] r[p]).0 != (#[trigger] r[q]).0 by {
            if p == 0 {
                assert(r[q] == rt[q - 1]);
                if rt[q - 1] == (key, v) {
                    assert(r[q].0 == key);
                    assert(r[0].0 != key);
                } else {
                    let j = choose|j: int| 0 <= j < tail.len() && tail[j] == rt[q - 1];
                    assert(kvs[j + 1] == rt[q - 1]);
                    assert(kvs[0].0 != kvs[j + 1].0);
                }
            } else {
                assert(r[p] == rt[p - 1] && r[q] == rt[q - 1]);
            }
        }
    }
}

/// Two inserts into an empty mapping with distinct keys yield the two-entry
/// mapping in insertion order.
pub proof fn lemma_spec_set_empty_two(k1: Seq<u8>, v1: Json, k2: Seq<u8>, v2: Json)
    requires
        k1 != k2,
    ensures
        spec_set(spec_set(Seq::empty(), k1, v1), k2, v2) == seq![(k1, v1), (k2, v2)],
{
    reveal_with_fuel(spec_set, 4);
    let one = spec_set(Seq::<(Seq<u8>, Json)>::empty(), k1, v1);
    assert(one =~= seq![(k1, v1)]);
    assert(one.subrange(1, 1) =~= Seq::<(Seq<u8>, Json)>::empty());
    assert(spec_set(one, k2, v2) =~= seq![(k1, v1)] + seq![(k2, v2)]);
    assert(seq![(k1, v1)] + seq![(k2, v2)] =~= seq![(k1, v1), (k2, v2)]);
}

/// Helper for `add_data`'s loop: what `spec_set` does from position `i` on.
pub open spec fn spec_set_from(
    kvs: Seq<(Seq<u8>, Json)>,
    key: Seq<u8>,
    v: Json,
    i: int,
) -> Seq<(Seq<u8>, Json)> {
    kvs.subrange(0, i) + spec_set(kvs.subrange(i, kvs.len() as int), key, v)
}

proof fn lemma_spec_set_step(kvs: Seq<(Seq<u8>, Json)>, key: Seq<u8>, v: Json, i: int)
    requires
        0 <= i < kvs.len(),
        kvs[i].0 != key,
    ensures
        spec_set_from(kvs, key, v, i) == spec_set_from(kvs, key, v, i + 1),
{
    let tail = kvs.subrange(i, kvs.len() as int);
    assert(tail[0] == kvs[i]);
    assert(tail.subrange(1, tail.len() as int) =~= kvs.subrange(i + 1, kvs.len() as int));
    assert(spec_set(tail, key, v) == seq![kvs[i]] + spec_set(
        kvs.subrange(i + 1, kvs.len() as int),
        key,
        v,
    ));
    assert(kvs.subrange(0, i) + (seq![kvs[i]] + spec_set(
        kvs.subrange(i + 1, kvs.len() as int),
        key,
        v,
    )) =~= kvs.subrange(0, i + 1) + spec_set(kvs.subrange(i + 1, kvs.len() as int), key, v));
}

proof fn lemma_spec_set_found(
    orig: Seq<(Seq<u8>, Json)>,
    key: Seq<u8>,
    v: Json,
    i: int,
    updated: Seq<(Seq<u8>, Json)>,
)
    requires
        0 <= i < orig.len(),
        orig[i].0 == key,
        spec_set(orig, key, v) == spec_set_from(orig, key, v, i),
        updated =~= orig.update(i, (key, v)),
    ensures
        spec_set(orig, key, v) == updated,
{
    let tail = orig.subrange(i, orig.len() as int);
    assert(tail[0] == orig[i]);
    assert(spec_set(tail, key, v) == seq![(key, v)] + tail.subrange(1, tail.len() as int));
    assert(tail.subrange(1, tail.len() as int) =~= orig.subrange(i + 1, orig.len() as int));
    assert(orig.subrange(0, i) + (seq![(key, v)] + orig.subrange(i + 1, orig.len() as int))
        =~= orig.update(i, (key, v)));
}

proof fn lemma_spec_set_append(orig: Seq<(Seq<u8>, Json)>, key: Seq<u8>, v: Json)
    requires
        forall|j: int| 0 <= j < orig.len() ==> orig[j].0 != key,
    ensures
        spec_set(orig, key, v) == orig.push((key, v)),
    decreases orig.len(),
{
    if orig.len() == 0 {
        assert(spec_set(orig, key, v) =~= orig.push((key, v)));
    } else {
        let tail = orig.subrange(1, orig.len() as int);
        lemma_spec_set_append(tail, key, v);
        assert(seq![orig[0]] + tail.push((key, v)) =~= orig.push((key, v)));
    }
}


// ---------------------------------------------------------------------------
// Compile (serialize, optionally sealing the data)
// ---------------------------------------------------------------------------

/// The envelope members emitted by `compile`, with the data entry given.
pub open spec fn spec_envelope_entries(p: PayloadSpec, data_entry: Json) -> Seq<(Seq<u8>, Json)> {
    if p.channel.len() > 0 {
        seq![
            (names::data(), data_entry),
            (names::channel(), Json::Str(p.channel)),
            (names::event(), Json::Str(p.event)),
        ]
    } else {
        seq![(names::data(), data_entry), (names::event(), Json::Str(p.event))]
    }
}

/// The data entry when no encryption applies: the serialized object as a
/// JSON string when non-empty, an empty object otherwise.
pub open spec fn spec_plain_data_entry(p: PayloadSpec) -> Json {
    if p.data.len() > 0 {
        Json::Str(json::spec_ser(Json::Obj(p.data)))
    } else {
        Json::Obj(Seq::empty())
    }
}

/// Compiled bytes of an envelope without encryption.
pub open spec fn spec_compile_plain(p: PayloadSpec) -> Seq<u8> {
    json::spec_ser(Json::Obj(spec_envelope_entries(p, spec_plain_data_entry(p))))
}

/// The data entry when sealing under `key` with `nonce`: the nonce followed
/// by the AES-256-GCM ciphertext of the serialized data object, in base64.
pub open spec fn spec_sealed_data_entry(p: PayloadSpec, key: Seq<u8>, nonce: Seq<u8>) -> Json {
    Json::Str(
        crypto::base64_of(
            nonce + crypto::aes256gcm_seal(key, nonce, json::spec_ser(Json::Obj(p.data))),
        ),
    )
}

/// Compiled bytes of an envelope sealed under `key` with `nonce`.
pub open spec fn spec_compile_sealed(p: PayloadSpec, key: Seq<u8>, nonce: Seq<u8>) -> Seq<u8> {
    json::spec_ser(Json::Obj(spec_envelope_entries(p, spec_sealed_data_entry(p, key, nonce))))
}

impl Payload {
    /// Serialize the envelope. With an encryption key, a non-empty data
    /// mapping is sealed under AES-256-GCM with a fresh 12-byte nonce that is
    /// prepended to the ciphertext before base64 encoding.
    pub fn compile(&self, encryption_key: Option<&Vec<u8>>) -> (r: Result<Vec<u8>, FastSocketError>)
        requires
            encryption_key matches Some(k) ==> k@.len() == 32,
        ensures
            self@.event.len() == 0 ==> r == Err::<Vec<u8>, FastSocketError>(
                FastSocketError::InvalidPayloadError,
            ),
            self@.event.len() > 0 && (encryption_key is None || self@.data.len() == 0)
                ==> (r matches Ok(b) && b@ == spec_compile_plain(self@)),
            self@.event.len() > 0 && self@.data.len() > 0 && (encryption_key matches Some(k))
                ==> match r {
                    Ok(b) => exists|nonce: Seq<u8>|
                        nonce.len() == 12 && b@ == spec_compile_sealed(
                            self@,
                            encryption_key->Some_0@,
                            nonce,
                        ),
                    Err(e) => e == FastSocketError::EncryptionError,
                },
    {
        if self.event.len() == 0 {
            return Err(FastSocketError::InvalidPayloadError);
        }
        proof {
            json::lemma_view_obj_index(self.data@);
        }
        let mut entries: Vec<(Vec<u8>, JsonValue)> = Vec::new();
        let ghost mut used_nonce: Seq<u8> = Seq::empty();
        if self.data.len() > 0 {
            let mut txt: Vec<u8> = Vec::new();
            json::write_obj(&self.data, &mut txt);
            let data_val: JsonValue = match encryption_key {
                Some(k) => {
                    let nonce = crypto::random_nonce();
                    proof {
                        used_nonce = nonce@;
                    }
                    match crypto::aes256gcm_encrypt(k.as_slice(), nonce.as_slice(), txt.as_slice())
                    {
                        Some(ct) => {
                            let mut buf = nonce;
                            let mut ct = ct;
                            buf.append(&mut ct);
                            JsonValue::Str(crypto::base64_encode(buf.as_slice()))
                        },
                        None => {
                            return Err(FastSocketError::EncryptionError);
                        },
                    }
                },
                None => JsonValue::Str(txt),
            };
            entries.push((names::data_bytes(), data_val));
        } else {
            entries.push((names::data_bytes(), JsonValue::Obj(Vec::new())));
        }
        if self.channel.len() > 0 {
            entries.push((names::channel_bytes(), JsonValue::Str(bytestr::to_vec(
                self.channel.as_slice(),
            ))));
        }
        entries.push((names::event_bytes(), JsonValue::Str(bytestr::to_vec(
            self.event.as_slice(),
        ))));
        proof {
            json::lemma_view_obj_index(entries@);
            let de = if self@.data.len() == 0 {
                Json::Obj(Seq::empty())
            } else if encryption_key is None {
                spec_plain_data_entry(self@)
            } else {
                spec_sealed_data_entry(self@, encryption_key->Some_0@, used_nonce)
            };
            assert(json::view_obj(entries@) =~= spec_envelope_entries(self@, de));
        }
        let mut out: Vec<u8> = Vec::new();
        json::write_obj(&entries, &mut out);
        Ok(out)
    }
}

/// Round trip: an envelope with a non-empty event, compiled without
/// encryption, parses back to exactly itself.
#[verifier::rlimit(100)]
#[verifier::spinoff_prover]
pub proof fn lemma_payload_round_trip(p: PayloadSpec)
    requires
        p.event.len() > 0,
        json::json_wf(Json::Obj(p.data)),
    ensures
        spec_payload_of(spec_compile_plain(p)) == Some(p),
{
    let de = spec_plain_data_entry(p);
    let entries = spec_envelope_entries(p, de);
    assert(json::json_wf(Json::Obj(entries))) by {
        assert(forall|j: int|
            0 <= j < entries.len() ==> json::json_wf(#[trigger] entries[j].1)) by {
            assert(json::json_wf(de));
            assert(json::json_wf(Json::Str(p.event)));
            assert(json::json_wf(Json::Str(p.channel)));
        }
    }
    json::lemma_parse_of_ser(Json::Obj(entries));
    reveal_with_fuel(spec_lookup, 5);
    // the three keys have pairwise different lengths, so lookups cannot
    // confuse them
    assert(names::data().len() == 4 && names::channel().len() == 7 && names::event().len() == 5);
    if p.channel.len() > 0 {
        assert(entries.subrange(1, 3) =~= seq![
            (names::channel(), Json::Str(p.channel)),
            (names::event(), Json::Str(p.event)),
        ]);
        assert(entries.subrange(1, 3).subrange(1, 2) =~= seq![
            (names::event(), Json::Str(p.event)),
        ]);
        assert(spec_lookup(entries, names::event()) == Some(Json::Str(p.event)));
        assert(spec_lookup(entries, names::channel()) == Some(Json::Str(p.channel)));
        assert(spec_lookup(entries, names::data()) == Some(de));
    } else {
        assert(entries.subrange(1, 2) =~= seq![(names::event(), Json::Str(p.event))]);
        assert(spec_lookup(entries, names::event()) == Some(Json::Str(p.event)));
        assert(entries.subrange(1, 2).subrange(1, 1) =~= Seq::<(Seq<u8>, Json)>::empty());
        assert(spec_lookup(entries, names::channel()) is None);
        assert(spec_lookup(entries, names::data()) == Some(de));
    }
    if p.channel.len() == 0 {
        assert(p.channel =~= Seq::<u8>::empty());
    }
    if p.data.len() > 0 {
        json::lemma_parse_of_ser(Json::Obj(p.data));
        assert(spec_payload_of(spec_compile_plain(p)) == Some(
            PayloadSpec { event: p.event, channel: p.channel, data: p.data },
        ));
    } else {
        assert(p.data =~= Seq::<(Seq<u8>, Json)>::empty());
        assert(spec_payload_of(spec_compile_plain(p)) == Some(
            PayloadSpec { event: p.event, channel: p.channel, data: p.data },
        ));
    }
}

} // verus!
