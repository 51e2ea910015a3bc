//! Protocol and field names as byte sequences.
//!
//! The broker core works on UTF-8 bytes; each name used on the wire or in the
//! catalog file has a specification-level sequence and an executable builder
//! proved to produce it.

use vstd::prelude::*;

verus! {

/// `event`
pub open spec fn event() -> Seq<u8> {
    seq![0x65u8, 0x76u8, 0x65u8, 0x6eu8, 0x74u8]
}

/// `event` as a byte vector.
pub fn event_bytes() -> (r: Vec<u8>)
    ensures
        r@ == event(),
{
    let a: [u8; 5] = [0x65, 0x76, 0x65, 0x6e, 0x74];
    let r = vstd::slice::slice_to_vec(a.as_slice());
    proof {
        assert(r@ =~= event());
    }
    r
}

/// `channel`
pub open spec fn channel() -> Seq<u8> {
    seq![0x63u8, 0x68u8, 0x61u8, 0x6eu8, 0x6eu8, 0x65u8, 0x6cu8]
}

/// `channel` as a byte vector.
pub fn channel_bytes() -> (r: Vec<u8>)
    ensures
        r@ == channel(),
{
    let a: [u8; 7] = [0x63, 0x68, 0x61, 0x6e, 0x6e, 0x65, 0x6c];
    let r = vstd::slice::slice_to_vec(a.as_slice());
    proof {
        assert(r@ =~= channel());
    }
    r
}

/// `data`
pub open spec fn data() -> Seq<u8> {
    seq![0x64u8, 0x61u8, 0x74u8, 0x61u8]
}

/// `data` as a byte vector.
pub fn data_bytes() -> (r: Vec<u8>)
    ensures
        r@ == data(),
{
    let a: [u8; 4] = [0x64, 0x61, 0x74, 0x61];
    let r = vstd::slice::slice_to_vec(a.as_slice());
    proof {
        assert(r@ =~= data());
    }
    r
}

/// `auth`
pub open spec fn auth() -> Seq<u8> {
    seq![0x61u8, 0x75u8, 0x74u8, 0x68u8]
}

/// `auth` as a byte vector.
pub fn auth_bytes() -> (r: Vec<u8>)
    ensures
        r@ == auth(),
{
    let a: [u8; 4] = [0x61, 0x75, 0x74, 0x68];
    let r = vstd::slice::slice_to_vec(a.as_slice());
    proof {
        assert(r@ =~= auth());
    }
    r
}

/// `channel_data`
pub open spec fn channel_data() -> Seq<u8> {
    seq![0x63u8, 0x68u8, 0x61u8, 0x6eu8, 0x6eu8, 0x65u8, 0x6cu8, 0x5fu8, 0x64u8, 0x61u8, 0x74u8, 0x61u8]
}

/// `channel_data` as a byte vector.
pub fn channel_data_bytes() -> (r: Vec<u8>)
    ensures
        r@ == channel_data(),
{
    let a: [u8; 12] = [0x63, 0x68, 0x61, 0x6e, 0x6e, 0x65, 0x6c, 0x5f, 0x64, 0x61, 0x74, 0x61];
    let r = vstd::slice::slice_to_vec(a.as_slice());
    proof {
        assert(r@ =~= channel_data());
    }
    r
}

/// `user_id`
pub open spec fn user_id() -> Seq<u8> {
    seq![0x75u8, 0x73u8, 0x65u8, 0x72u8, 0x5fu8, 0x69u8, 0x64u8]
}

/// `user_id` as a byte vector.
pub fn user_id_bytes() -> (r: Vec<u8>)
    ensures
        r@ == user_id(),
{
    let a: [u8; 7] = [0x75, 0x73, 0x65, 0x72, 0x5f, 0x69, 0x64];
    let r = vstd::slice::slice_to_vec(a.as_slice());
    proof {
        assert(r@ =~= user_id());
    }
    r
}

/// `user_info`
pub open spec fn user_info() -> Seq<u8> {
    seq![0x75u8, 0x73u8, 0x65u8, 0x72u8, 0x5fu8, 0x69u8, 0x6eu8, 0x66u8, 0x6fu8]
}

/// `user_info` as a byte vector.
pub fn user_info_bytes() -> (r: Vec<u8>)
    ensures
        r@ == user_info(),
{
    let a: [u8; 9] = [0x75, 0x73, 0x65, 0x72, 0x5f, 0x69, 0x6e, 0x66, 0x6f];
    let r = vstd::slice::slice_to_vec(a.as_slice());
    proof {
        assert(r@ =~= user_info());
    }
    r
}

/// `presence`
pub open spec fn presence() -> Seq<u8> {
    seq![0x70u8, 0x72u8, 0x65u8, 0x73u8, 0x65u8, 0x6eu8, 0x63u8, 0x65u8]
}

/// `presence` as a byte vector.
pub fn presence_bytes() -> (r: Vec<u8>)
    ensures
        r@ == presence(),
{
    let a: [u8; 8] = [0x70, 0x72, 0x65, 0x73, 0x65, 0x6e, 0x63, 0x65];
    let r = vstd::slice::slice_to_vec(a.as_slice());
    proof {
        assert(r@ =~= presence());
    }
    r
}

/// `ids`
pub open spec fn ids() -> Seq<u8> {
    seq![0x69u8, 0x64u8, 0x73u8]
}

/// `ids` as a byte vector.
pub fn ids_bytes() -> (r: Vec<u8>)
    ensures
        r@ == ids(),
{
    let a: [u8; 3] = [0x69, 0x64, 0x73];
    let r = vstd::slice::slice_to_vec(a.as_slice());
    proof {
        assert(r@ =~= ids());
    }
    r
}

/// `hash`
pub open spec fn hash() -> Seq<u8> {
    seq![0x68u8, 0x61u8, 0x73u8, 0x68u8]
}

/// `hash` as a byte vector.
pub fn hash_bytes() -> (r: Vec<u8>)
    ensures
        r@ == hash(),
{
    let a: [u8; 4] = [0x68, 0x61, 0x73, 0x68];
    let r = vstd::slice::slice_to_vec(a.as_slice());
    proof {
        assert(r@ =~= hash());
    }
    r
}

/// `count`
pub open spec fn count() -> Seq<u8> {
    seq![0x63u8, 0x6fu8, 0x75u8, 0x6eu8, 0x74u8]
}

/// `count` as a byte vector.
pub fn count_bytes() -> (r: Vec<u8>)
    ensures
        r@ == count(),
{
    let a: [u8; 5] = [0x63, 0x6f, 0x75, 0x6e, 0x74];
    let r = vstd::slice::slice_to_vec(a.as_slice());
    proof {
        assert(r@ =~= count());
    }
    r
}

/// `occupied`
pub open spec fn occupied() -> Seq<u8> {
    seq![0x6fu8, 0x63u8, 0x63u8, 0x75u8, 0x70u8, 0x69u8, 0x65u8, 0x64u8]
}

/// `occupied` as a byte vector.
pub fn occupied_bytes() -> (r: Vec<u8>)
    ensures
        r@ == occupied(),
{
    let a: [u8; 8] = [0x6f, 0x63, 0x63, 0x75, 0x70, 0x69, 0x65, 0x64];
    let r = vstd::slice::slice_to_vec(a.as_slice());
    proof {
        assert(r@ =~= occupied());
    }
    r
}

/// `subscription_count`
pub open spec fn subscription_count() -> Seq<u8> {
    seq![0x73u8, 0x75u8, 0x62u8, 0x73u8, 0x63u8, 0x72u8, 0x69u8, 0x70u8, 0x74u8, 0x69u8, 0x6fu8, 0x6eu8, 0x5fu8, 0x63u8, 0x6fu8, 0x75u8, 0x6eu8, 0x74u8]
}

/// `subscription_count` as a byte vector.
pub fn subscription_count_bytes() -> (r: Vec<u8>)
    ensures
        r@ == subscription_count(),
{
    let a: [u8; 18] = [0x73, 0x75, 0x62, 0x73, 0x63, 0x72, 0x69, 0x70, 0x74, 0x69, 0x6f, 0x6e, 0x5f, 0x63, 0x6f, 0x75, 0x6e, 0x74];
    let r = vstd::slice::slice_to_vec(a.as_slice());
    proof {
        assert(r@ =~= subscription_count());
    }
    r
}

/// `socket_id`
pub open spec fn socket_id() -> Seq<u8> {
    seq![0x73u8, 0x6fu8, 0x63u8, 0x6bu8, 0x65u8, 0x74u8, 0x5fu8, 0x69u8, 0x64u8]
}

/// `socket_id` as a byte vector.
pub fn socket_id_bytes() -> (r: Vec<u8>)
    ensures
        r@ == socket_id(),
{
    let a: [u8; 9] = [0x73, 0x6f, 0x63, 0x6b, 0x65, 0x74, 0x5f, 0x69, 0x64];
    let r = vstd::slice::slice_to_vec(a.as_slice());
    proof {
        assert(r@ =~= socket_id());
    }
    r
}

/// `activity_timeout`
pub open spec fn activity_timeout() -> Seq<u8> {
    seq![0x61u8, 0x63u8, 0x74u8, 0x69u8, 0x76u8, 0x69u8, 0x74u8, 0x79u8, 0x5fu8, 0x74u8, 0x69u8, 0x6du8, 0x65u8, 0x6fu8, 0x75u8, 0x74u8]
}

/// `activity_timeout` as a byte vector.
pub fn activity_timeout_bytes() -> (r: Vec<u8>)
    ensures
        r@ == activity_timeout(),
{
    let a: [u8; 16] = [0x61, 0x63, 0x74, 0x69, 0x76, 0x69, 0x74, 0x79, 0x5f, 0x74, 0x69, 0x6d, 0x65, 0x6f, 0x75, 0x74];
    let r = vstd::slice::slice_to_vec(a.as_slice());
    proof {
        assert(r@ =~= activity_timeout());
    }
    r
}

/// `pusher:`
pub open spec fn pusher_prefix() -> Seq<u8> {
    seq![0x70u8, 0x75u8, 0x73u8, 0x68u8, 0x65u8, 0x72u8, 0x3au8]
}

/// `pusher:` as a byte vector.
pub fn pusher_prefix_bytes() -> (r: Vec<u8>)
    ensures
        r@ == pusher_prefix(),
{
    let a: [u8; 7] = [0x70, 0x75, 0x73, 0x68, 0x65, 0x72, 0x3a];
    let r = vstd::slice::slice_to_vec(a.as_slice());
    proof {
        assert(r@ =~= pusher_prefix());
    }
    r
}

/// `pusher:ping`
pub open spec fn ping() -> Seq<u8> {
    seq![0x70u8, 0x75u8, 0x73u8, 0x68u8, 0x65u8, 0x72u8, 0x3au8, 0x70u8, 0x69u8, 0x6eu8, 0x67u8]
}

/// `pusher:ping` as a byte vector.
pub fn ping_bytes() -> (r: Vec<u8>)
    ensures
        r@ == ping(),
{
    let a: [u8; 11] = [0x70, 0x75, 0x73, 0x68, 0x65, 0x72, 0x3a, 0x70, 0x69, 0x6e, 0x67];
    let r = vstd::slice::slice_to_vec(a.as_slice());
    proof {
        assert(r@ =~= ping());
    }
    r
}

/// `pusher:subscribe`
pub open spec fn subscribe() -> Seq<u8> {
    seq![0x70u8, 0x75u8, 0x73u8, 0x68u8, 0x65u8, 0x72u8, 0x3au8, 0x73u8, 0x75u8, 0x62u8, 0x73u8, 0x63u8, 0x72u8, 0x69u8, 0x62u8, 0x65u8]
}

/// `pusher:subscribe` as a byte vector.
pub fn subscribe_bytes() -> (r: Vec<u8>)
    ensures
        r@ == subscribe(),
{
    let a: [u8; 16] = [0x70, 0x75, 0x73, 0x68, 0x65, 0x72, 0x3a, 0x73, 0x75, 0x62, 0x73, 0x63, 0x72, 0x69, 0x62, 0x65];
    let r = vstd::slice::slice_to_vec(a.as_slice());
    proof {
        assert(r@ =~= subscribe());
    }
    r
}

/// `pusher:unsubscribe`
pub open spec fn unsubscribe() -> Seq<u8> {
    seq![0x70u8, 0x75u8, 0x73u8, 0x68u8, 0x65u8, 0x72u8, 0x3au8, 0x75u8, 0x6eu8, 0x73u8, 0x75u8, 0x62u8, 0x73u8, 0x63u8, 0x72u8, 0x69u8, 0x62u8, 0x65u8]
}

/// `pusher:unsubscribe` as a byte vector.
pub fn unsubscribe_bytes() -> (r: Vec<u8>)
    ensures
        r@ == unsubscribe(),
{
    let a: [u8; 18] = [0x70, 0x75, 0x73, 0x68, 0x65, 0x72, 0x3a, 0x75, 0x6e, 0x73, 0x75, 0x62, 0x73, 0x63, 0x72, 0x69, 0x62, 0x65];
    let r = vstd::slice::slice_to_vec(a.as_slice());
    proof {
        assert(r@ =~= unsubscribe());
    }
    r
}

/// `pusher:pong`
pub open spec fn pong() -> Seq<u8> {
    seq![0x70u8, 0x75u8, 0x73u8, 0x68u8, 0x65u8, 0x72u8, 0x3au8, 0x70u8, 0x6fu8, 0x6eu8, 0x67u8]
}

/// `pusher:pong` as a byte vector.
pub fn pong_bytes() -> (r: Vec<u8>)
    ensures
        r@ == pong(),
{
    let a: [u8; 11] = [0x70, 0x75, 0x73, 0x68, 0x65, 0x72, 0x3a, 0x70, 0x6f, 0x6e, 0x67];
    let r = vstd::slice::slice_to_vec(a.as_slice());
    proof {
        assert(r@ =~= pong());
    }
    r
}

/// `pusher:connection_established`
pub open spec fn connection_established() -> Seq<u8> {
    seq![0x70u8, 0x75u8, 0x73u8, 0x68u8, 0x65u8, 0x72u8, 0x3au8, 0x63u8, 0x6fu8, 0x6eu8, 0x6eu8, 0x65u8, 0x63u8, 0x74u8, 0x69u8, 0x6fu8, 0x6eu8, 0x5fu8, 0x65u8, 0x73u8, 0x74u8, 0x61u8, 0x62u8, 0x6cu8, 0x69u8, 0x73u8, 0x68u8, 0x65u8, 0x64u8]
}

/// `pusher:connection_established` as a byte vector.
pub fn connection_established_bytes() -> (r: Vec<u8>)
    ensures
        r@ == connection_established(),
{
    let a: [u8; 29] = [0x70, 0x75, 0x73, 0x68, 0x65, 0x72, 0x3a, 0x63, 0x6f, 0x6e, 0x6e, 0x65, 0x63, 0x74, 0x69, 0x6f, 0x6e, 0x5f, 0x65, 0x73, 0x74, 0x61, 0x62, 0x6c, 0x69, 0x73, 0x68, 0x65, 0x64];
    let r = vstd::slice::slice_to_vec(a.as_slice());
    proof {
        assert(r@ =~= connection_established());
    }
    r
}

/// `pusher_internal:subscription_succeeded`
pub open spec fn subscription_succeeded() -> Seq<u8> {
    seq![0x70u8, 0x75u8, 0x73u8, 0x68u8, 0x65u8, 0x72u8, 0x5fu8, 0x69u8, 0x6eu8, 0x74u8, 0x65u8, 0x72u8, 0x6eu8, 0x61u8, 0x6cu8, 0x3au8, 0x73u8, 0x75u8, 0x62u8, 0x73u8, 0x63u8, 0x72u8, 0x69u8, 0x70u8, 0x74u8, 0x69u8, 0x6fu8, 0x6eu8, 0x5fu8, 0x73u8, 0x75u8, 0x63u8, 0x63u8, 0x65u8, 0x65u8, 0x64u8, 0x65u8, 0x64u8]
}

/// `pusher_internal:subscription_succeeded` as a byte vector.
pub fn subscription_succeeded_bytes() -> (r: Vec<u8>)
    ensures
        r@ == subscription_succeeded(),
{
    let a: [u8; 38] = [0x70, 0x75, 0x73, 0x68, 0x65, 0x72, 0x5f, 0x69, 0x6e, 0x74, 0x65, 0x72, 0x6e, 0x61, 0x6c, 0x3a, 0x73, 0x75, 0x62, 0x73, 0x63, 0x72, 0x69, 0x70, 0x74, 0x69, 0x6f, 0x6e, 0x5f, 0x73, 0x75, 0x63, 0x63, 0x65, 0x65, 0x64, 0x65, 0x64];
    let r = vstd::slice::slice_to_vec(a.as_slice());
    proof {
        assert(r@ =~= subscription_succeeded());
    }
    r
}

/// `pusher_internal:member_added`
pub open spec fn member_added() -> Seq<u8> {
    seq![0x70u8, 0x75u8, 0x73u8, 0x68u8, 0x65u8, 0x72u8, 0x5fu8, 0x69u8, 0x6eu8, 0x74u8, 0x65u8, 0x72u8, 0x6eu8, 0x61u8, 0x6cu8, 0x3au8, 0x6du8, 0x65u8, 0x6du8, 0x62u8, 0x65u8, 0x72u8, 0x5fu8, 0x61u8, 0x64u8, 0x64u8, 0x65u8, 0x64u8]
}

/// `pusher_internal:member_added` as a byte vector.
pub fn member_added_bytes() -> (r: Vec<u8>)
    ensures
        r@ == member_added(),
{
    let a: [u8; 28] = [0x70, 0x75, 0x73, 0x68, 0x65, 0x72, 0x5f, 0x69, 0x6e, 0x74, 0x65, 0x72, 0x6e, 0x61, 0x6c, 0x3a, 0x6d, 0x65, 0x6d, 0x62, 0x65, 0x72, 0x5f, 0x61, 0x64, 0x64, 0x65, 0x64];
    let r = vstd::slice::slice_to_vec(a.as_slice());
    proof {
        assert(r@ =~= member_added());
    }
    r
}

/// `pusher_internal:member_removed`
pub open spec fn member_removed() -> Seq<u8> {
    seq![0x70u8, 0x75u8, 0x73u8, 0x68u8, 0x65u8, 0x72u8, 0x5fu8, 0x69u8, 0x6eu8, 0x74u8, 0x65u8, 0x72u8, 0x6eu8, 0x61u8, 0x6cu8, 0x3au8, 0x6du8, 0x65u8, 0x6du8, 0x62u8, 0x65u8, 0x72u8, 0x5fu8, 0x72u8, 0x65u8, 0x6du8, 0x6fu8, 0x76u8, 0x65u8, 0x64u8]
}

/// `pusher_internal:member_removed` as a byte vector.
pub fn member_removed_bytes() -> (r: Vec<u8>)
    ensures
        r@ == member_removed(),
{
    let a: [u8; 30] = [0x70, 0x75, 0x73, 0x68, 0x65, 0x72, 0x5f, 0x69, 0x6e, 0x74, 0x65, 0x72, 0x6e, 0x61, 0x6c, 0x3a, 0x6d, 0x65, 0x6d, 0x62, 0x65, 0x72, 0x5f, 0x72, 0x65, 0x6d, 0x6f, 0x76, 0x65, 0x64];
    let r = vstd::slice::slice_to_vec(a.as_slice());
    proof {
        assert(r@ =~= member_removed());
    }
    r
}

/// `private-encrypted-`
pub open spec fn private_encrypted_prefix() -> Seq<u8> {
    seq![0x70u8, 0x72u8, 0x69u8, 0x76u8, 0x61u8, 0x74u8, 0x65u8, 0x2du8, 0x65u8, 0x6eu8, 0x63u8, 0x72u8, 0x79u8, 0x70u8, 0x74u8, 0x65u8, 0x64u8, 0x2du8]
}

/// `private-encrypted-` as a byte vector.
pub fn private_encrypted_prefix_bytes() -> (r: Vec<u8>)
    ensures
        r@ == private_encrypted_prefix(),
{
    let a: [u8; 18] = [0x70, 0x72, 0x69, 0x76, 0x61, 0x74, 0x65, 0x2d, 0x65, 0x6e, 0x63, 0x72, 0x79, 0x70, 0x74, 0x65, 0x64, 0x2d];
    let r = vstd::slice::slice_to_vec(a.as_slice());
    proof {
        assert(r@ =~= private_encrypted_prefix());
    }
    r
}

/// `private-`
pub open spec fn private_prefix() -> Seq<u8> {
    seq![0x70u8, 0x72u8, 0x69u8, 0x76u8, 0x61u8, 0x74u8, 0x65u8, 0x2du8]
}

/// `private-` as a byte vector.
pub fn private_prefix_bytes() -> (r: Vec<u8>)
    ensures
        r@ == private_prefix(),
{
    let a: [u8; 8] = [0x70, 0x72, 0x69, 0x76, 0x61, 0x74, 0x65, 0x2d];
    let r = vstd::slice::slice_to_vec(a.as_slice());
    proof {
        assert(r@ =~= private_prefix());
    }
    r
}

/// `presence-`
pub open spec fn presence_prefix() -> Seq<u8> {
    seq![0x70u8, 0x72u8, 0x65u8, 0x73u8, 0x65u8, 0x6eu8, 0x63u8, 0x65u8, 0x2du8]
}

/// `presence-` as a byte vector.
pub fn presence_prefix_bytes() -> (r: Vec<u8>)
    ensures
        r@ == presence_prefix(),
{
    let a: [u8; 9] = [0x70, 0x72, 0x65, 0x73, 0x65, 0x6e, 0x63, 0x65, 0x2d];
    let r = vstd::slice::slice_to_vec(a.as_slice());
    proof {
        assert(r@ =~= presence_prefix());
    }
    r
}

/// `id`
pub open spec fn id() -> Seq<u8> {
    seq![0x69u8, 0x64u8]
}

/// `id` as a byte vector.
pub fn id_bytes() -> (r: Vec<u8>)
    ensures
        r@ == id(),
{
    let a: [u8; 2] = [0x69, 0x64];
    let r = vstd::slice::slice_to_vec(a.as_slice());
    proof {
        assert(r@ =~= id());
    }
    r
}

/// `key`
pub open spec fn key() -> Seq<u8> {
    seq![0x6bu8, 0x65u8, 0x79u8]
}

/// `key` as a byte vector.
pub fn key_bytes() -> (r: Vec<u8>)
    ensures
        r@ == key(),
{
    let a: [u8; 3] = [0x6b, 0x65, 0x79];
    let r = vstd::slice::slice_to_vec(a.as_slice());
    proof {
        assert(r@ =~= key());
    }
    r
}

/// `secret`
pub open spec fn secret() -> Seq<u8> {
    seq![0x73u8, 0x65u8, 0x63u8, 0x72u8, 0x65u8, 0x74u8]
}

/// `secret` as a byte vector.
pub fn secret_bytes() -> (r: Vec<u8>)
    ensures
        r@ == secret(),
{
    let a: [u8; 6] = [0x73, 0x65, 0x63, 0x72, 0x65, 0x74];
    let r = vstd::slice::slice_to_vec(a.as_slice());
    proof {
        assert(r@ =~= secret());
    }
    r
}

/// `name`
pub open spec fn name() -> Seq<u8> {
    seq![0x6eu8, 0x61u8, 0x6du8, 0x65u8]
}

/// `name` as a byte vector.
pub fn name_bytes() -> (r: Vec<u8>)
    ensures
        r@ == name(),
{
    let a: [u8; 4] = [0x6e, 0x61, 0x6d, 0x65];
    let r = vstd::slice::slice_to_vec(a.as_slice());
    proof {
        assert(r@ =~= name());
    }
    r
}

/// `host`
pub open spec fn host() -> Seq<u8> {
    seq![0x68u8, 0x6fu8, 0x73u8, 0x74u8]
}

/// `host` as a byte vector.
pub fn host_bytes() -> (r: Vec<u8>)
    ensures
        r@ == host(),
{
    let a: [u8; 4] = [0x68, 0x6f, 0x73, 0x74];
    let r = vstd::slice::slice_to_vec(a.as_slice());
    proof {
        assert(r@ =~= host());
    }
    r
}

/// `path`
pub open spec fn path() -> Seq<u8> {
    seq![0x70u8, 0x61u8, 0x74u8, 0x68u8]
}

/// `path` as a byte vector.
pub fn path_bytes() -> (r: Vec<u8>)
    ensures
        r@ == path(),
{
    let a: [u8; 4] = [0x70, 0x61, 0x74, 0x68];
    let r = vstd::slice::slice_to_vec(a.as_slice());
    proof {
        assert(r@ =~= path());
    }
    r
}

/// `capacity`
pub open spec fn capacity() -> Seq<u8> {
    seq![0x63u8, 0x61u8, 0x70u8, 0x61u8, 0x63u8, 0x69u8, 0x74u8, 0x79u8]
}

/// `capacity` as a byte vector.
pub fn capacity_bytes() -> (r: Vec<u8>)
    ensures
        r@ == capacity(),
{
    let a: [u8; 8] = [0x63, 0x61, 0x70, 0x61, 0x63, 0x69, 0x74, 0x79];
    let r = vstd::slice::slice_to_vec(a.as_slice());
    proof {
        assert(r@ =~= capacity());
    }
    r
}

/// `connection_count`
pub open spec fn connection_count() -> Seq<u8> {
    seq![0x63u8, 0x6fu8, 0x6eu8, 0x6eu8, 0x65u8, 0x63u8, 0x74u8, 0x69u8, 0x6fu8, 0x6eu8, 0x5fu8, 0x63u8, 0x6fu8, 0x75u8, 0x6eu8, 0x74u8]
}

/// `connection_count` as a byte vector.
pub fn connection_count_bytes() -> (r: Vec<u8>)
    ensures
        r@ == connection_count(),
{
    let a: [u8; 16] = [0x63, 0x6f, 0x6e, 0x6e, 0x65, 0x63, 0x74, 0x69, 0x6f, 0x6e, 0x5f, 0x63, 0x6f, 0x75, 0x6e, 0x74];
    let r = vstd::slice::slice_to_vec(a.as_slice());
    proof {
        assert(r@ =~= connection_count());
    }
    r
}

/// `flags`
pub open spec fn flags() -> Seq<u8> {
    seq![0x66u8, 0x6cu8, 0x61u8, 0x67u8, 0x73u8]
}

/// `flags` as a byte vector.
pub fn flags_bytes() -> (r: Vec<u8>)
    ensures
        r@ == flags(),
{
    let a: [u8; 5] = [0x66, 0x6c, 0x61, 0x67, 0x73];
    let r = vstd::slice::slice_to_vec(a.as_slice());
    proof {
        assert(r@ =~= flags());
    }
    r
}

/// `fastsocket`
pub open spec fn dev_app() -> Seq<u8> {
    seq![0x66u8, 0x61u8, 0x73u8, 0x74u8, 0x73u8, 0x6fu8, 0x63u8, 0x6bu8, 0x65u8, 0x74u8]
}

/// `fastsocket` as a byte vector.
pub fn dev_app_bytes() -> (r: Vec<u8>)
    ensures
        r@ == dev_app(),
{
    let a: [u8; 10] = [0x66, 0x61, 0x73, 0x74, 0x73, 0x6f, 0x63, 0x6b, 0x65, 0x74];
    let r = vstd::slice::slice_to_vec(a.as_slice());
    proof {
        assert(r@ =~= dev_app());
    }
    r
}

/// `secret`
pub open spec fn dev_secret() -> Seq<u8> {
    seq![0x73u8, 0x65u8, 0x63u8, 0x72u8, 0x65u8, 0x74u8]
}

/// `secret` as a byte vector.
pub fn dev_secret_bytes() -> (r: Vec<u8>)
    ensures
        r@ == dev_secret(),
{
    let a: [u8; 6] = [0x73, 0x65, 0x63, 0x72, 0x65, 0x74];
    let r = vstd::slice::slice_to_vec(a.as_slice());
    proof {
        assert(r@ =~= dev_secret());
    }
    r
}

/// `FastSocket`
pub open spec fn dev_name() -> Seq<u8> {
    seq![0x46u8, 0x61u8, 0x73u8, 0x74u8, 0x53u8, 0x6fu8, 0x63u8, 0x6bu8, 0x65u8, 0x74u8]
}

/// `FastSocket` as a byte vector.
pub fn dev_name_bytes() -> (r: Vec<u8>)
    ensures
        r@ == dev_name(),
{
    let a: [u8; 10] = [0x46, 0x61, 0x73, 0x74, 0x53, 0x6f, 0x63, 0x6b, 0x65, 0x74];
    let r = vstd::slice::slice_to_vec(a.as_slice());
    proof {
        assert(r@ =~= dev_name());
    }
    r
}

/// `http://localhost:6002`
pub open spec fn dev_host() -> Seq<u8> {
    seq![0x68u8, 0x74u8, 0x74u8, 0x70u8, 0x3au8, 0x2fu8, 0x2fu8, 0x6cu8, 0x6fu8, 0x63u8, 0x61u8, 0x6cu8, 0x68u8, 0x6fu8, 0x73u8, 0x74u8, 0x3au8, 0x36u8, 0x30u8, 0x30u8, 0x32u8]
}

/// `http://localhost:6002` as a byte vector.
pub fn dev_host_bytes() -> (r: Vec<u8>)
    ensures
        r@ == dev_host(),
{
    let a: [u8; 21] = [0x68, 0x74, 0x74, 0x70, 0x3a, 0x2f, 0x2f, 0x6c, 0x6f, 0x63, 0x61, 0x6c, 0x68, 0x6f, 0x73, 0x74, 0x3a, 0x36, 0x30, 0x30, 0x32];
    let r = vstd::slice::slice_to_vec(a.as_slice());
    proof {
        assert(r@ =~= dev_host());
    }
    r
}

/// `/app/`
pub open spec fn dev_path() -> Seq<u8> {
    seq![0x2fu8, 0x61u8, 0x70u8, 0x70u8, 0x2fu8]
}

/// `/app/` as a byte vector.
pub fn dev_path_bytes() -> (r: Vec<u8>)
    ensures
        r@ == dev_path(),
{
    let a: [u8; 5] = [0x2f, 0x61, 0x70, 0x70, 0x2f];
    let r = vstd::slice::slice_to_vec(a.as_slice());
    proof {
        assert(r@ =~= dev_path());
    }
    r
}

/// `:`
pub open spec fn colon() -> Seq<u8> {
    seq![0x3au8]
}

/// `:` as a byte vector.
pub fn colon_bytes() -> (r: Vec<u8>)
    ensures
        r@ == colon(),
{
    let a: [u8; 1] = [0x3a];
    let r = vstd::slice::slice_to_vec(a.as_slice());
    proof {
        assert(r@ =~= colon());
    }
    r
}

} // verus!
