use fastsocket::errors::FastSocketError;
use fastsocket::json_app_manager::JsonAppManager;
use fastsocket::payload::Payload;
use fastsocket::websocket::{app_id_from_path, FrameOpCode, RuntimeAction, WebSocket};

fn broker(max: u64) -> WebSocket {
    WebSocket::new(JsonAppManager::new(None).unwrap(), max)
}

fn open(ws: &mut WebSocket) -> Vec<u8> {
    let (socket_id, greeting) = ws.open_connection(b"fastsocket").unwrap();
    assert_eq!(greeting.get_event().as_slice(), b"pusher:connection_established");
    assert_eq!(
        greeting.get_data_str(b"socket_id").unwrap().as_slice(),
        socket_id.as_slice(),
    );
    assert_eq!(greeting.get_data_int(b"activity_timeout"), Some(30));
    socket_id
}

fn text(ws: &mut WebSocket, sid: &[u8], json: &[u8]) -> Vec<RuntimeAction> {
    ws.handle_frame(sid, FrameOpCode::Text, true, json).unwrap()
}

#[test]
fn greeting_carries_a_well_formed_socket_id() {
    let mut ws = broker(10);
    let sid = open(&mut ws);
    assert_eq!(sid.len(), 13);
    assert_eq!(sid[6], b'.');
    for (i, b) in sid.iter().enumerate() {
        if i != 6 {
            assert!(b.is_ascii_digit());
        }
    }
}

#[test]
fn unknown_apps_are_refused() {
    let mut ws = broker(10);
    assert_eq!(ws.open_connection(b"ghost").unwrap_err(), FastSocketError::InvalidAppError);
    assert_eq!(ws.live_count(), 0);
}

#[test]
fn a_full_broker_refuses_with_the_capacity_error() {
    let mut ws = broker(2);
    open(&mut ws);
    open(&mut ws);
    assert_eq!(
        ws.open_connection(b"fastsocket").unwrap_err(),
        FastSocketError::ServerCapacityError,
    );
    assert_eq!(ws.live_count(), 2);
}

#[test]
fn the_gauge_follows_the_live_clients() {
    let mut ws = broker(10);
    let a = open(&mut ws);
    let b = open(&mut ws);
    let count =
        |ws: &WebSocket| ws.apps().find(b"fastsocket").unwrap().get_connection_count();
    assert_eq!(count(&ws), 2);
    ws.close_connection(&a);
    assert_eq!(count(&ws), 1);
    assert_eq!(ws.live_count(), 1);
    // closing an unknown id changes nothing
    ws.close_connection(b"000000.000000");
    assert_eq!(count(&ws), 1);
    ws.close_connection(&b);
    assert_eq!(count(&ws), 0);
    assert_eq!(ws.live_count(), 0);
}

#[test]
fn subscribe_creates_the_channel_on_demand() {
    let mut ws = broker(10);
    let sid = open(&mut ws);
    assert!(!ws.channels().find(b"fastsocket", b"chat"));
    let actions = text(
        &mut ws,
        &sid,
        b"{\"event\":\"pusher:subscribe\",\"data\":{\"channel\":\"chat\"}}",
    );
    assert!(ws.channels().find(b"fastsocket", b"chat"));
    assert_eq!(ws.channels().clients_count(b"fastsocket", b"chat"), Some(1));
    assert_eq!(actions.len(), 1);
    match &actions[0] {
        RuntimeAction::Send(s) => {
            assert_eq!(s.socket_id, sid);
            assert_eq!(
                s.payload.get_event().as_slice(),
                b"pusher_internal:subscription_succeeded",
            );
            assert_eq!(s.payload.get_channel().as_slice(), b"chat");
        },
        _ => panic!("expected a send"),
    }
}

#[test]
fn subscribe_without_a_channel_name_is_ignored() {
    let mut ws = broker(10);
    let sid = open(&mut ws);
    let actions = text(&mut ws, &sid, b"{\"event\":\"pusher:subscribe\",\"data\":{}}");
    assert!(actions.is_empty());
}

#[test]
fn unsubscribing_an_unknown_channel_is_a_no_op() {
    let mut ws = broker(10);
    let sid = open(&mut ws);
    let actions = text(
        &mut ws,
        &sid,
        b"{\"event\":\"pusher:unsubscribe\",\"channel\":\"nowhere\"}",
    );
    assert!(actions.is_empty());
    assert!(!ws.channels().find(b"fastsocket", b"nowhere"));
}

#[test]
fn unsubscribing_leaves_the_channel_without_the_client() {
    let mut ws = broker(10);
    let sid = open(&mut ws);
    text(&mut ws, &sid, b"{\"event\":\"pusher:subscribe\",\"data\":{\"channel\":\"chat\"}}");
    assert_eq!(ws.channels().clients_count(b"fastsocket", b"chat"), Some(1));
    text(&mut ws, &sid, b"{\"event\":\"pusher:unsubscribe\",\"channel\":\"chat\"}");
    assert_eq!(ws.channels().clients_count(b"fastsocket", b"chat"), Some(0));
}

#[test]
fn a_ping_frame_asks_for_a_pong_and_changes_nothing() {
    let mut ws = broker(10);
    let sid = open(&mut ws);
    text(&mut ws, &sid, b"{\"event\":\"pusher:subscribe\",\"data\":{\"channel\":\"chat\"}}");
    let actions = ws.handle_frame(&sid, FrameOpCode::Ping, true, b"").unwrap();
    assert_eq!(actions.len(), 1);
    assert!(matches!(actions[0], RuntimeAction::Pong));
    assert_eq!(ws.live_count(), 1);
    assert_eq!(ws.channels().clients_count(b"fastsocket", b"chat"), Some(1));
}

#[test]
fn a_ping_event_is_answered_with_a_pong_event() {
    let mut ws = broker(10);
    let sid = open(&mut ws);
    let actions = text(&mut ws, &sid, b"{\"event\":\"pusher:ping\"}");
    assert_eq!(actions.len(), 1);
    match &actions[0] {
        RuntimeAction::Send(s) => {
            assert_eq!(s.socket_id, sid);
            assert_eq!(s.payload.get_event().as_slice(), b"pusher:pong");
        },
        _ => panic!("expected a send"),
    }
}

#[test]
fn unknown_control_events_are_ignored() {
    let mut ws = broker(10);
    let sid = open(&mut ws);
    let actions = text(&mut ws, &sid, b"{\"event\":\"pusher:future-thing\"}");
    assert!(actions.is_empty());
}

#[test]
fn close_frames_and_bad_frames_report_their_errors() {
    let mut ws = broker(10);
    let sid = open(&mut ws);
    assert_eq!(
        ws.handle_frame(&sid, FrameOpCode::Close, true, b"").unwrap_err(),
        FastSocketError::ConnectionClosed,
    );
    assert_eq!(
        ws.handle_frame(&sid, FrameOpCode::Text, false, b"{}").unwrap_err(),
        FastSocketError::ErrorReadingPayload,
    );
    assert_eq!(
        ws.handle_frame(&sid, FrameOpCode::Text, true, &[0xff, 0xfe]).unwrap_err(),
        FastSocketError::ErrorDecodingPayload,
    );
    assert_eq!(
        ws.handle_frame(&sid, FrameOpCode::Text, true, b"not json").unwrap_err(),
        FastSocketError::InvalidMessageError,
    );
    // the connection is still live after contained errors
    assert_eq!(ws.live_count(), 1);
}

#[test]
fn closing_sweeps_every_channel() {
    let mut ws = broker(10);
    let a = open(&mut ws);
    let b = open(&mut ws);
    text(&mut ws, &a, b"{\"event\":\"pusher:subscribe\",\"data\":{\"channel\":\"c1\"}}");
    text(&mut ws, &a, b"{\"event\":\"pusher:subscribe\",\"data\":{\"channel\":\"c2\"}}");
    text(&mut ws, &b, b"{\"event\":\"pusher:subscribe\",\"data\":{\"channel\":\"c1\"}}");
    assert_eq!(ws.channels().clients_count(b"fastsocket", b"c1"), Some(2));
    assert_eq!(ws.channels().clients_count(b"fastsocket", b"c2"), Some(1));
    ws.close_connection(&a);
    // the channels persist, emptied of the closed client
    assert_eq!(ws.channels().clients_count(b"fastsocket", b"c1"), Some(1));
    assert_eq!(ws.channels().clients_count(b"fastsocket", b"c2"), Some(0));
    assert_eq!(
        ws.apps().find(b"fastsocket").unwrap().get_connection_count(),
        1,
    );
}

#[test]
fn client_events_are_dropped_when_the_app_forbids_them() {
    // the built-in development app has client messages disabled
    let mut ws = broker(10);
    let a = open(&mut ws);
    let b = open(&mut ws);
    text(&mut ws, &a, b"{\"event\":\"pusher:subscribe\",\"data\":{\"channel\":\"chat\"}}");
    text(&mut ws, &b, b"{\"event\":\"pusher:subscribe\",\"data\":{\"channel\":\"chat\"}}");
    let actions = text(&mut ws, &a, b"{\"event\":\"client-move\",\"channel\":\"chat\"}");
    assert!(actions.is_empty());
}

#[test]
fn frames_from_unknown_sockets_are_errors() {
    let mut ws = broker(10);
    open(&mut ws);
    assert_eq!(
        ws.handle_frame(b"999999.999999", FrameOpCode::Text, true, b"{\"event\":\"pusher:ping\"}")
            .unwrap_err(),
        FastSocketError::ErrorHandlingMessage,
    );
}

#[test]
fn the_app_id_is_the_third_path_segment() {
    assert_eq!(app_id_from_path(b"/app/fastsocket").unwrap(), b"fastsocket".to_vec());
    assert_eq!(app_id_from_path(b"/app/x/extra").unwrap(), b"x".to_vec());
    assert_eq!(app_id_from_path(b"/app/").unwrap(), b"".to_vec());
    assert!(app_id_from_path(b"/app").is_none());
    assert!(app_id_from_path(b"").is_none());
}

#[test]
fn pusher_pong_compiles_with_empty_data() {
    let p = Payload::builder().event(b"pusher:pong").build().unwrap();
    assert_eq!(p.compile(None).unwrap(), b"{\"data\":{},\"event\":\"pusher:pong\"}".to_vec());
}
