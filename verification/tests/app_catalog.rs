use fastsocket::app::App;
use fastsocket::errors::FastSocketError;
use fastsocket::json_app_manager::JsonAppManager;

fn sample_app() -> App {
    App::new(
        b"app1".to_vec(),
        b"key1".to_vec(),
        b"sec1".to_vec(),
        b"Name".to_vec(),
        b"host".to_vec(),
        b"/p".to_vec(),
        50,
        1,
    )
    .unwrap()
}

#[test]
fn app_new_validates_each_field_in_order() {
    let mk = |id: &[u8], key: &[u8], secret: &[u8], name: &[u8], host: &[u8], path: &[u8], cap: u64| {
        App::new(
            id.to_vec(),
            key.to_vec(),
            secret.to_vec(),
            name.to_vec(),
            host.to_vec(),
            path.to_vec(),
            cap,
            0,
        )
    };
    assert_eq!(mk(b"", b"k", b"s", b"n", b"h", b"p", 1).unwrap_err(), FastSocketError::InvalidAppIdError);
    assert_eq!(mk(b"i", b"", b"s", b"n", b"h", b"p", 1).unwrap_err(), FastSocketError::InvalidAppKeyError);
    assert_eq!(mk(b"i", b"k", b"", b"n", b"h", b"p", 1).unwrap_err(), FastSocketError::InvalidAppSecretError);
    assert_eq!(mk(b"i", b"k", b"s", b"", b"h", b"p", 1).unwrap_err(), FastSocketError::InvalidAppNameError);
    assert_eq!(mk(b"i", b"k", b"s", b"n", b"", b"p", 1).unwrap_err(), FastSocketError::InvalidAppHostError);
    assert_eq!(mk(b"i", b"k", b"s", b"n", b"h", b"", 1).unwrap_err(), FastSocketError::InvalidAppPathError);
    assert_eq!(mk(b"i", b"k", b"s", b"n", b"h", b"p", 0).unwrap_err(), FastSocketError::InvalidAppCapacityError);
    let app = mk(b"i", b"k", b"s", b"n", b"h", b"p", 1).unwrap();
    assert_eq!(app.get_connection_count(), 0);
}

#[test]
fn app_flags_toggle_independently() {
    let mut app = sample_app();
    assert!(app.is_client_messages_enabled());
    assert!(!app.is_statistics_enabled());
    app.enable_statistics(true);
    assert!(app.is_client_messages_enabled());
    assert!(app.is_statistics_enabled());
    app.enable_client_messages(false);
    assert!(!app.is_client_messages_enabled());
    assert!(app.is_statistics_enabled());
}

#[test]
fn app_count_moves_up_and_down() {
    let mut app = sample_app();
    app.increment_connection_count();
    app.increment_connection_count();
    assert_eq!(app.get_connection_count(), 2);
    app.decrement_connection_count();
    assert_eq!(app.get_connection_count(), 1);
}

#[test]
fn new_catalog_holds_the_dev_app() {
    let m = JsonAppManager::new(None).unwrap();
    let dev = m.find(b"fastsocket").unwrap();
    assert_eq!(dev.get_key().as_slice(), b"fastsocket");
    assert_eq!(dev.get_secret().as_slice(), b"secret");
    assert_eq!(dev.get_name().as_slice(), b"FastSocket");
    assert_eq!(dev.get_host().as_slice(), b"http://localhost:6002");
    assert_eq!(dev.get_path().as_slice(), b"/app/");
    assert_eq!(dev.get_capacity(), 100);
    assert!(m.find(b"other").is_none());
}

#[test]
fn indices_resolve_key_and_secret() {
    let mut m = JsonAppManager::new(None).unwrap();
    m.add(sample_app());
    let by_key = m.find_by_key(b"key1").unwrap();
    assert_eq!(by_key.get_id().as_slice(), b"app1");
    let by_secret = m.find_by_secret(b"sec1").unwrap();
    assert_eq!(by_secret.get_id().as_slice(), b"app1");
    assert!(m.find_by_key(b"nope").is_none());
    assert!(m.find_by_secret(b"nope").is_none());
}

#[test]
fn update_refreshes_the_indices() {
    let mut m = JsonAppManager::new(None).unwrap();
    m.add(sample_app());
    let replacement = App::new(
        b"app1".to_vec(),
        b"key2".to_vec(),
        b"sec2".to_vec(),
        b"Name".to_vec(),
        b"host".to_vec(),
        b"/p".to_vec(),
        50,
        0,
    )
    .unwrap();
    m.update(replacement);
    assert!(m.find_by_key(b"key1").is_none());
    assert_eq!(m.find_by_key(b"key2").unwrap().get_id().as_slice(), b"app1");
}

#[test]
fn remove_reports_whether_something_left() {
    let mut m = JsonAppManager::new(None).unwrap();
    m.add(sample_app());
    assert!(m.remove(b"app1"));
    assert!(!m.remove(b"app1"));
    assert!(m.find(b"app1").is_none());
    assert!(m.find_by_key(b"key1").is_none());
}

#[test]
fn save_is_a_no_op_when_clean() {
    let mut m = JsonAppManager::new(None).unwrap();
    assert!(m.save().is_none());
    m.add(sample_app());
    let bytes = m.save().unwrap();
    assert!(!bytes.is_empty());
    // saving again without further changes yields nothing
    assert!(m.save().is_none());
}

#[test]
fn saved_bytes_load_back_to_the_same_records() {
    let mut m = JsonAppManager::new(None).unwrap();
    m.add(sample_app());
    let bytes = m.save().unwrap();
    let reloaded = JsonAppManager::new(Some(&bytes)).unwrap();
    let a = reloaded.find(b"app1").unwrap();
    assert_eq!(a.get_key().as_slice(), b"key1");
    assert_eq!(a.get_secret().as_slice(), b"sec1");
    assert_eq!(a.get_name().as_slice(), b"Name");
    assert_eq!(a.get_host().as_slice(), b"host");
    assert_eq!(a.get_path().as_slice(), b"/p");
    assert_eq!(a.get_capacity(), 50);
    assert_eq!(a.get_connection_count(), 0);
    assert!(a.is_client_messages_enabled());
    // and saving the reloaded catalog gives byte-identical records
    let mut reloaded = reloaded;
    reloaded.add(sample_app());
    assert_eq!(reloaded.save().unwrap(), bytes);
}

#[test]
fn malformed_catalog_files_are_refused() {
    assert!(JsonAppManager::new(Some(b"not json")).is_err());
    assert!(JsonAppManager::new(Some(b"{}")).is_err());
    assert!(JsonAppManager::new(Some(b"[{\"id\":\"x\"}]")).is_err());
}
