use aes_gcm::aead::Aead;
use aes_gcm::KeyInit;
use base64::Engine;
use fastsocket::errors::FastSocketError;
use fastsocket::json::JsonValue;
use fastsocket::payload::Payload;

#[test]
fn parses_an_envelope() {
    let p = Payload::new(
        b"{\"event\":\"pusher:subscribe\",\"channel\":\"chat\",\"data\":{\"auth\":\"k:ab\"}}",
    )
    .unwrap();
    assert_eq!(p.get_event().as_slice(), b"pusher:subscribe");
    assert_eq!(p.get_channel().as_slice(), b"chat");
    assert_eq!(p.get_data_str(b"auth").unwrap().as_slice(), b"k:ab");
    assert!(p.has_key(b"auth"));
    assert!(!p.has_key(b"missing"));
    assert_eq!(p.len(), 1);
    assert!(!p.is_empty());
}

#[test]
fn missing_channel_reads_empty() {
    let p = Payload::new(b"{\"event\":\"x\"}").unwrap();
    assert_eq!(p.get_channel().len(), 0);
    assert!(p.is_empty());
}

#[test]
fn data_as_string_is_reparsed() {
    let p = Payload::new(b"{\"event\":\"x\",\"data\":\"{\\\"k\\\":5}\"}").unwrap();
    assert_eq!(p.get_data_int(b"k"), Some(5));
    // a data string that is no object's text (sealed data, say) reads empty
    let q = Payload::new(b"{\"event\":\"x\",\"data\":\"b64junk==\"}").unwrap();
    assert!(q.is_empty());
}

#[test]
fn parse_failures_are_invalid_message() {
    // not an object
    assert_eq!(Payload::new(b"[1]").unwrap_err(), FastSocketError::InvalidMessageError);
    // event absent
    assert_eq!(Payload::new(b"{\"channel\":\"c\"}").unwrap_err(), FastSocketError::InvalidMessageError);
    // event not a string
    assert_eq!(Payload::new(b"{\"event\":4}").unwrap_err(), FastSocketError::InvalidMessageError);
    // empty event
    assert_eq!(Payload::new(b"{\"event\":\"\"}").unwrap_err(), FastSocketError::InvalidMessageError);
    // data present but neither object nor object-in-string
    assert_eq!(
        Payload::new(b"{\"event\":\"x\",\"data\":7}").unwrap_err(),
        FastSocketError::InvalidMessageError,
    );
    // not JSON at all
    assert_eq!(Payload::new(b"nope").unwrap_err(), FastSocketError::InvalidMessageError);
}

#[test]
fn builder_requires_event() {
    let r = Payload::builder().channel(b"c").build();
    assert_eq!(r.unwrap_err(), FastSocketError::InvalidMessageError);
}

#[test]
fn builder_add_data_replaces_same_key() {
    let p = Payload::builder()
        .event(b"ev")
        .add_data(b"k", JsonValue::Int(1))
        .add_data(b"k", JsonValue::Int(2))
        .add_data(b"m", JsonValue::Bool(true))
        .build()
        .unwrap();
    assert_eq!(p.get_data_int(b"k"), Some(2));
    assert_eq!(p.get_data_bool(b"m"), Some(true));
    assert_eq!(p.len(), 2);
}

#[test]
fn compile_requires_event_and_orders_keys() {
    let p = Payload::builder().event(b"greet").channel(b"chat").build().unwrap();
    // empty data compiles to an empty object, channel before event
    assert_eq!(p.compile(None).unwrap(), b"{\"data\":{},\"channel\":\"chat\",\"event\":\"greet\"}".to_vec());
    let q = Payload::builder().event(b"greet").build().unwrap();
    assert_eq!(q.compile(None).unwrap(), b"{\"data\":{},\"event\":\"greet\"}".to_vec());
}

#[test]
fn compile_serializes_data_as_text() {
    let p = Payload::builder()
        .event(b"msg")
        .channel(b"chat")
        .add_data(b"text", JsonValue::Str(b"hi".to_vec()))
        .build()
        .unwrap();
    let bytes = p.compile(None).unwrap();
    // a non-empty mapping travels as a JSON string under "data"
    assert_eq!(
        bytes,
        b"{\"data\":\"{\\\"text\\\":\\\"hi\\\"}\",\"channel\":\"chat\",\"event\":\"msg\"}".to_vec(),
    );
    // and parsing it back restores the envelope
    let back = Payload::new(&bytes).unwrap();
    assert_eq!(back.get_event().as_slice(), b"msg");
    assert_eq!(back.get_channel().as_slice(), b"chat");
    assert_eq!(back.get_data_str(b"text").unwrap().as_slice(), b"hi");
}

#[test]
fn round_trip_compile_then_parse() {
    let p = Payload::builder()
        .event(b"client-move")
        .channel(b"private-game")
        .add_data(b"x", JsonValue::Int(3))
        .add_data(b"tags", JsonValue::Arr(vec![JsonValue::Str(b"a\"quote".to_vec())]))
        .build()
        .unwrap();
    let bytes = p.compile(None).unwrap();
    let back = Payload::new(&bytes).unwrap();
    assert_eq!(back.get_event(), p.get_event());
    assert_eq!(back.get_channel(), p.get_channel());
    assert_eq!(back.get_data_int(b"x"), Some(3));
    // the whole data mapping agrees byte for byte once reserialized
    assert_eq!(back.compile(None).unwrap(), bytes);
}

#[test]
fn compile_with_key_seals_the_data() {
    let key: Vec<u8> = (0u8..32).collect();
    let p = Payload::builder()
        .event(b"x")
        .channel(b"private-encrypted-y")
        .add_data(b"msg", JsonValue::Str(b"hi".to_vec()))
        .build()
        .unwrap();
    let bytes = p.compile(Some(&key)).unwrap();
    let back = Payload::new(&bytes).unwrap();
    assert_eq!(back.get_event().as_slice(), b"x");

    // the data travelled as base64 of nonce plus ciphertext: undo it
    let parsed = fastsocket::json::parse_json(&bytes).unwrap();
    let b64 = match parsed {
        fastsocket::json::JsonValue::Obj(entries) => match &entries[0].1 {
            fastsocket::json::JsonValue::Str(s) => s.clone(),
            _ => panic!("data is not a string"),
        },
        _ => panic!("not an object"),
    };
    let sealed = base64::engine::general_purpose::STANDARD.decode(&b64).unwrap();
    let (nonce, ct) = sealed.split_at(12);
    let cipher = aes_gcm::Aes256Gcm::new(aes_gcm::Key::<aes_gcm::Aes256Gcm>::from_slice(&key));
    let pt = cipher
        .decrypt(aes_gcm::Nonce::<aes_gcm::aead::consts::U12>::from_slice(nonce), ct)
        .unwrap();
    assert_eq!(pt, b"{\"msg\":\"hi\"}".to_vec());
}
