use fastsocket::app::App;
use fastsocket::channel::{Channel, ChannelKind};
use fastsocket::channel_manager::make_channel;
use fastsocket::client::Client;
use fastsocket::errors::FastSocketError;
use fastsocket::json::JsonValue;
use fastsocket::payload::Payload;
use hmac::Mac;

fn test_app(flags: u8) -> App {
    App::new(
        b"app1".to_vec(),
        b"key1".to_vec(),
        b"sec1".to_vec(),
        b"Name".to_vec(),
        b"host".to_vec(),
        b"/p".to_vec(),
        100,
        flags,
    )
    .unwrap()
}

fn test_client(socket_id: &[u8]) -> Client {
    Client { socket_id: socket_id.to_vec(), public_key: Vec::new(), app_id: b"app1".to_vec() }
}

fn sign(secret: &[u8], message: &[u8]) -> String {
    let mut mac = <hmac::Hmac<sha2::Sha256> as hmac::KeyInit>::new_from_slice(secret).unwrap();
    mac.update(message);
    hex::encode(mac.finalize().into_bytes())
}

fn auth_payload(socket_id: &[u8], channel: &[u8], channel_data: Option<&str>) -> Payload {
    let mut message = socket_id.to_vec();
    message.push(b':');
    message.extend_from_slice(channel);
    if let Some(cd) = channel_data {
        message.push(b':');
        message.extend_from_slice(cd.as_bytes());
    }
    let auth = format!("key1:{}", sign(b"sec1", &message));
    let mut b = Payload::builder()
        .event(b"pusher:subscribe")
        .add_data(b"channel", JsonValue::Str(channel.to_vec()))
        .add_data(b"auth", JsonValue::Str(auth.into_bytes()));
    if let Some(cd) = channel_data {
        b = b.add_data(b"channel_data", JsonValue::Str(cd.as_bytes().to_vec()));
    }
    b.build().unwrap()
}

#[test]
fn factory_picks_the_variant_by_prefix_precedence() {
    assert_eq!(make_channel(b"plain").get_kind(), ChannelKind::Public);
    assert_eq!(make_channel(b"private-room").get_kind(), ChannelKind::Private);
    assert_eq!(make_channel(b"presence-lobby").get_kind(), ChannelKind::Presence);
    // `private-encrypted-` wins over its own `private-` prefix
    assert_eq!(make_channel(b"private-encrypted-foo").get_kind(), ChannelKind::Encrypted);
    // precedence is by prefix, not by substring
    assert_eq!(make_channel(b"xprivate-foo").get_kind(), ChannelKind::Public);
}

#[test]
fn public_subscribe_acknowledges_and_counts() {
    let app = test_app(0);
    let mut ch = Channel::new(b"chat".to_vec(), ChannelKind::Public);
    let c = test_client(b"000001.000001");
    let payload = Payload::builder().event(b"pusher:subscribe").build().unwrap();
    let actions = ch.subscribe(&c, &app, &payload).unwrap();
    assert_eq!(actions.len(), 1);
    assert_eq!(actions[0].socket_id, c.socket_id);
    assert_eq!(actions[0].payload.get_event().as_slice(), b"pusher_internal:subscription_succeeded");
    assert_eq!(actions[0].payload.get_channel().as_slice(), b"chat");
    assert_eq!(ch.get_clients_count(), 1);
    assert!(ch.has_connection());
}

#[test]
fn resubscribing_replaces_and_keeps_the_count() {
    let app = test_app(0);
    let mut ch = Channel::new(b"chat".to_vec(), ChannelKind::Public);
    let c = test_client(b"000001.000001");
    let payload = Payload::builder().event(b"pusher:subscribe").build().unwrap();
    ch.subscribe(&c, &app, &payload).unwrap();
    ch.subscribe(&c, &app, &payload).unwrap();
    assert_eq!(ch.get_clients_count(), 1);
    let subs = ch.get_subscribers();
    assert_eq!(subs.len(), 1);
    assert_eq!(subs[0], c.socket_id);
}

#[test]
fn unsubscribe_removes_and_unknown_ids_are_no_ops() {
    let app = test_app(0);
    let mut ch = Channel::new(b"chat".to_vec(), ChannelKind::Public);
    let c = test_client(b"000001.000001");
    let payload = Payload::builder().event(b"pusher:subscribe").build().unwrap();
    ch.subscribe(&c, &app, &payload).unwrap();
    ch.unsubscribe(b"999999.999999");
    assert_eq!(ch.get_clients_count(), 1);
    ch.unsubscribe(c.socket_id.as_slice());
    assert_eq!(ch.get_clients_count(), 0);
    assert!(!ch.has_connection());
}

#[test]
fn private_subscribe_accepts_a_valid_signature() {
    let app = test_app(0);
    let mut ch = Channel::new(b"private-room".to_vec(), ChannelKind::Private);
    let c = test_client(b"000001.000002");
    let payload = auth_payload(c.socket_id.as_slice(), b"private-room", None);
    let actions = ch.subscribe(&c, &app, &payload).unwrap();
    assert_eq!(actions.len(), 1);
    assert_eq!(ch.get_clients_count(), 1);
}

#[test]
fn private_subscribe_refuses_a_bad_signature() {
    let app = test_app(0);
    let mut ch = Channel::new(b"private-room".to_vec(), ChannelKind::Private);
    let c = test_client(b"000001.000002");
    let payload = Payload::builder()
        .event(b"pusher:subscribe")
        .add_data(b"auth", JsonValue::Str(b"key1:deadbeef".to_vec()))
        .build()
        .unwrap();
    let r = ch.subscribe(&c, &app, &payload);
    assert_eq!(r.unwrap_err(), FastSocketError::InvalidSignatureError);
    assert_eq!(ch.get_clients_count(), 0);
}

#[test]
fn signature_shape_errors_are_refused() {
    let app = test_app(0);
    let mut ch = Channel::new(b"private-room".to_vec(), ChannelKind::Private);
    let c = test_client(b"000001.000002");
    for auth in [&b"nocolon"[..], b"two:colons:here", b"key1:nothex!"] {
        let payload = Payload::builder()
            .event(b"pusher:subscribe")
            .add_data(b"auth", JsonValue::Str(auth.to_vec()))
            .build()
            .unwrap();
        assert_eq!(
            ch.subscribe(&c, &app, &payload).unwrap_err(),
            FastSocketError::InvalidSignatureError,
        );
    }
    // and a missing auth field entirely
    let payload = Payload::builder().event(b"pusher:subscribe").build().unwrap();
    assert_eq!(ch.subscribe(&c, &app, &payload).unwrap_err(), FastSocketError::InvalidSignatureError);
}

#[test]
fn presence_subscribe_reports_members_and_announces_joins() {
    let app = test_app(0);
    let mut ch = Channel::new(b"presence-lobby".to_vec(), ChannelKind::Presence);

    let ann = test_client(b"000001.000001");
    let cd_ann = "{\"user_id\":\"u1\",\"user_info\":{\"name\":\"Ann\"}}";
    let p1 = auth_payload(ann.socket_id.as_slice(), b"presence-lobby", Some(cd_ann));
    let a1 = ch.subscribe(&ann, &app, &p1).unwrap();
    assert_eq!(a1.len(), 1);
    assert_eq!(a1[0].socket_id, ann.socket_id);
    assert_eq!(
        a1[0].payload.compile(None).unwrap(),
        b"{\"data\":\"{\\\"presence\\\":{\\\"ids\\\":[\\\"u1\\\"],\\\"hash\\\":{\\\"u1\\\":{\\\"name\\\":\\\"Ann\\\"}},\\\"count\\\":1}}\",\"channel\":\"presence-lobby\",\"event\":\"pusher_internal:subscription_succeeded\"}"
            .to_vec(),
    );

    let bob = test_client(b"000002.000002");
    let cd_bob = "{\"user_id\":\"u2\",\"user_info\":{\"name\":\"Bob\"}}";
    let p2 = auth_payload(bob.socket_id.as_slice(), b"presence-lobby", Some(cd_bob));
    let a2 = ch.subscribe(&bob, &app, &p2).unwrap();
    // the acknowledgement to the joiner, then the announcement to Ann
    assert_eq!(a2.len(), 2);
    assert_eq!(a2[0].socket_id, bob.socket_id);
    assert_eq!(
        a2[0].payload.compile(None).unwrap(),
        b"{\"data\":\"{\\\"presence\\\":{\\\"ids\\\":[\\\"u1\\\",\\\"u2\\\"],\\\"hash\\\":{\\\"u1\\\":{\\\"name\\\":\\\"Ann\\\"},\\\"u2\\\":{\\\"name\\\":\\\"Bob\\\"}},\\\"count\\\":2}}\",\"channel\":\"presence-lobby\",\"event\":\"pusher_internal:subscription_succeeded\"}"
            .to_vec(),
    );
    assert_eq!(a2[1].socket_id, ann.socket_id);
    assert_eq!(a2[1].payload.get_event().as_slice(), b"pusher_internal:member_added");
    assert_eq!(a2[1].payload.get_data_str(b"user_id").unwrap().as_slice(), b"u2");
    assert_eq!(ch.get_clients_count(), 2);
}

#[test]
fn presence_subscribe_needs_member_data() {
    let app = test_app(0);
    let mut ch = Channel::new(b"presence-lobby".to_vec(), ChannelKind::Presence);
    let c = test_client(b"000001.000001");
    // a valid signature but no channel_data
    let p = auth_payload(c.socket_id.as_slice(), b"presence-lobby", None);
    assert_eq!(ch.subscribe(&c, &app, &p).unwrap_err(), FastSocketError::InvalidMessageError);
    // channel_data that is not an object
    let p = auth_payload(c.socket_id.as_slice(), b"presence-lobby", Some("[1]"));
    assert_eq!(ch.subscribe(&c, &app, &p).unwrap_err(), FastSocketError::InvalidMessageError);
    // channel_data without a string user_id
    let p = auth_payload(c.socket_id.as_slice(), b"presence-lobby", Some("{\"user_id\":7}"));
    assert_eq!(ch.subscribe(&c, &app, &p).unwrap_err(), FastSocketError::InvalidMessageError);
    assert_eq!(ch.get_clients_count(), 0);
}

#[test]
fn broadcast_reaches_everyone_but_the_excluded() {
    let app = test_app(0);
    let mut ch = Channel::new(b"chat".to_vec(), ChannelKind::Public);
    let payload = Payload::builder().event(b"pusher:subscribe").build().unwrap();
    let a = test_client(b"000001.000001");
    let b = test_client(b"000002.000002");
    let c = test_client(b"000003.000003");
    ch.subscribe(&a, &app, &payload).unwrap();
    ch.subscribe(&b, &app, &payload).unwrap();
    ch.subscribe(&c, &app, &payload).unwrap();
    let msg = Payload::builder().event(b"client-x").channel(b"chat").build().unwrap();
    let all = ch.broadcast(&msg);
    assert_eq!(all.len(), 3);
    let others = ch.broadcast_to_others(&b, &msg);
    assert_eq!(others.len(), 2);
    assert_eq!(others[0].socket_id, a.socket_id);
    assert_eq!(others[1].socket_id, c.socket_id);
}

#[test]
fn summary_reports_occupancy_and_count() {
    let app = test_app(0);
    let mut ch = Channel::new(b"chat".to_vec(), ChannelKind::Public);
    assert_eq!(ch.to_array().to_json_bytes(), b"{\"occupied\":false,\"subscription_count\":0}".to_vec());
    let payload = Payload::builder().event(b"pusher:subscribe").build().unwrap();
    ch.subscribe(&test_client(b"000001.000001"), &app, &payload).unwrap();
    assert_eq!(ch.to_array().to_json_bytes(), b"{\"occupied\":true,\"subscription_count\":1}".to_vec());
}

#[test]
fn constant_time_eq_agrees_with_equality() {
    assert!(fastsocket::bytestr::constant_time_eq(b"abc", b"abc"));
    assert!(!fastsocket::bytestr::constant_time_eq(b"abc", b"abd"));
    assert!(!fastsocket::bytestr::constant_time_eq(b"abc", b"ab"));
    assert!(fastsocket::bytestr::constant_time_eq(b"", b""));
}
