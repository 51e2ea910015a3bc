use fastsocket::app::App;
use fastsocket::channel_manager::LocalChannelManager;
use fastsocket::client::Client;
use fastsocket::json::JsonValue;
use fastsocket::message::{ClassifiedMessage, ClientMessage, MessageFactory};
use fastsocket::payload::Payload;

fn relay_app(flags: u8) -> App {
    App::new(
        b"app1".to_vec(),
        b"key1".to_vec(),
        b"sec1".to_vec(),
        b"Name".to_vec(),
        b"host".to_vec(),
        b"/p".to_vec(),
        100,
        flags,
    )
    .unwrap()
}

fn client(socket_id: &[u8]) -> Client {
    Client { socket_id: socket_id.to_vec(), public_key: Vec::new(), app_id: b"app1".to_vec() }
}

#[test]
fn the_factory_classifies_by_prefix() {
    let factory = MessageFactory::new();
    let control = Payload::builder().event(b"pusher:ping").build().unwrap();
    assert!(matches!(factory.for_payload(control), ClassifiedMessage::Protocol(_)));
    let event = Payload::builder().event(b"client-move").build().unwrap();
    assert!(matches!(factory.for_payload(event), ClassifiedMessage::Client(_)));
    // internal events are control messages too
    let internal = Payload::builder().event(b"pusher:anything").build().unwrap();
    assert!(matches!(factory.for_payload(internal), ClassifiedMessage::Protocol(_)));
}

#[test]
fn client_events_relay_to_the_others_when_allowed() {
    let app = relay_app(1);
    let mut manager = LocalChannelManager::new();
    let a = client(b"000001.000001");
    let b = client(b"000002.000002");
    let subscribe = Payload::builder().event(b"pusher:subscribe").build().unwrap();
    let idx = manager.find_or_create(b"app1", b"chat");
    manager.subscribe_at(idx, &a, &app, &subscribe).unwrap();
    manager.subscribe_at(idx, &b, &app, &subscribe).unwrap();

    let event = Payload::builder()
        .event(b"client-move")
        .channel(b"chat")
        .add_data(b"x", JsonValue::Int(4))
        .build()
        .unwrap();
    let msg = ClientMessage::new(event);
    let actions = msg.handle(&a, &app, &manager);
    // only the other subscriber hears it
    assert_eq!(actions.len(), 1);
    assert_eq!(actions[0].socket_id, b.socket_id);
    assert_eq!(actions[0].payload.get_event().as_slice(), b"client-move");
    assert_eq!(actions[0].payload.get_data_int(b"x"), Some(4));
}

#[test]
fn client_events_to_unknown_channels_relay_to_nobody() {
    let app = relay_app(1);
    let manager = LocalChannelManager::new();
    let a = client(b"000001.000001");
    let event = Payload::builder().event(b"client-move").channel(b"ghost").build().unwrap();
    let actions = ClientMessage::new(event).handle(&a, &app, &manager);
    assert!(actions.is_empty());
}

#[test]
fn client_events_are_dropped_when_disabled() {
    let app = relay_app(0);
    let mut manager = LocalChannelManager::new();
    let a = client(b"000001.000001");
    let b = client(b"000002.000002");
    let subscribe = Payload::builder().event(b"pusher:subscribe").build().unwrap();
    let idx = manager.find_or_create(b"app1", b"chat");
    manager.subscribe_at(idx, &a, &app, &subscribe).unwrap();
    manager.subscribe_at(idx, &b, &app, &subscribe).unwrap();
    let event = Payload::builder().event(b"client-move").channel(b"chat").build().unwrap();
    let actions = ClientMessage::new(event).handle(&a, &app, &manager);
    assert!(actions.is_empty());
}

#[test]
fn generated_socket_ids_have_the_documented_shape() {
    for _ in 0..32 {
        let id = Client::generate_unique_socket_id();
        assert_eq!(id.len(), 13);
        assert_eq!(id[6], b'.');
        for (i, b) in id.iter().enumerate() {
            if i != 6 {
                assert!(b.is_ascii_digit());
            }
        }
    }
}

#[test]
fn removal_sweeps_every_registered_channel() {
    let app = relay_app(0);
    let mut manager = LocalChannelManager::new();
    let a = client(b"000001.000001");
    let subscribe = Payload::builder().event(b"pusher:subscribe").build().unwrap();
    let c1 = manager.find_or_create(b"app1", b"one");
    manager.subscribe_at(c1, &a, &app, &subscribe).unwrap();
    let c2 = manager.find_or_create(b"app1", b"two");
    manager.subscribe_at(c2, &a, &app, &subscribe).unwrap();
    manager.remove_from_all_channels(a.socket_id.as_slice());
    assert_eq!(manager.clients_count(b"app1", b"one"), Some(0));
    assert_eq!(manager.clients_count(b"app1", b"two"), Some(0));
}
