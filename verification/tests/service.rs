use t_rust_less::api::{Identity, Property, SecretVersion};
use t_rust_less::clipboard::SelectionDebounce;
use t_rust_less::memguard::SecretBytes;
use t_rust_less::service::{create_service, Config, Event, LocalTrustlessService, StoreConfig};

fn store_config(name: &str, timeout_secs: u64) -> StoreConfig {
    StoreConfig {
        name: name.to_string(),
        store_url: format!("multilane+file:///tmp/{}", name),
        client_id: "client-1".to_string(),
        autolock_timeout_secs: timeout_secs,
    }
}

fn service_with_store(name: &str, timeout_secs: u64) -> LocalTrustlessService {
    let mut service = create_service(Config {
        stores: Vec::new(),
        default_store: None,
    })
    .expect("create service");
    service
        .set_store_config(store_config(name, timeout_secs))
        .expect("set config");
    service.open_store(name).expect("open");
    service
}

#[test]
fn first_configured_store_becomes_default() {
    let mut service = create_service(Config {
        stores: Vec::new(),
        default_store: None,
    })
    .expect("create service");
    assert!(service.get_default_store().is_none());
    assert_eq!(service.list_stores().len(), 0);
    service.set_store_config(store_config("main", 300)).expect("set");
    assert_eq!(service.get_default_store().as_deref(), Some("main"));
    service.set_store_config(store_config("second", 300)).expect("set");
    assert_eq!(service.get_default_store().as_deref(), Some("main"));
    assert_eq!(service.list_stores(), vec!["main".to_string(), "second".to_string()]);
    service.set_default_store("second").expect("set default");
    assert_eq!(service.get_default_store().as_deref(), Some("second"));
    assert!(service.set_default_store("missing").is_err());
}

#[test]
fn store_config_lookup() {
    let mut service = create_service(Config {
        stores: Vec::new(),
        default_store: None,
    })
    .expect("create service");
    service.set_store_config(store_config("main", 300)).expect("set");
    let sc = service.get_store_config("main").expect("get");
    assert_eq!(sc.autolock_timeout_secs, 300);
    assert_eq!(sc.client_id, "client-1");
    assert!(matches!(
        service.get_store_config("missing"),
        Err(t_rust_less::error::ServiceError::StoreNotFound(_))
    ));
}

#[test]
fn open_store_requires_configuration() {
    let mut service = create_service(Config {
        stores: Vec::new(),
        default_store: None,
    })
    .expect("create service");
    assert!(service.open_store("missing").is_err());
    service.set_store_config(store_config("main", 300)).expect("set");
    service.open_store("main").expect("open");
    service.open_store("main").expect("open again");
    assert!(service.store_mut("main").is_some());
    assert!(service.store_mut("missing").is_none());
}

#[test]
fn autolock_sweep_locks_expired_stores() {
    // Scenario: a store with a one-second timeout is unlocked, the sweeper
    // runs after the deadline, and the store reports locked.
    let mut service = service_with_store("main", 1);
    {
        let store = service.store_mut("main").expect("store");
        store
            .add_identity(
                &Identity {
                    id: "alice".to_string(),
                    name: "Alice".to_string(),
                    email: "alice@example.test".to_string(),
                },
                &SecretBytes::from_vec(b"pw1".to_vec()),
            )
            .expect("add identity");
        store
            .unlock("alice", &SecretBytes::from_vec(b"pw1".to_vec()), 0)
            .expect("unlock");
        assert_eq!(store.status().autolock_at, Some(1000));
    }
    service.check_autolock_at(500);
    assert!(!service.store_mut("main").expect("store").status().locked);
    service.check_autolock_at(1200);
    assert!(service.store_mut("main").expect("store").status().locked);
}

#[test]
fn clipboard_debounce_returns_duplicates_within_window() {
    // Scenario: four reads within the debounce window return the first
    // value again; a later read advances; exhaustion reports done.
    let values = vec!["user".to_string(), "pass".to_string()];
    let mut provider = SelectionDebounce::new("Mail account".to_string(), values, 1000);
    assert_eq!(provider.current_selection_name().as_deref(), Some("Mail account"));

    // The first read arrives well after startup, so the cold-start rule
    // does not apply.
    assert_eq!(provider.get_selection(2000).as_deref(), Some("user"));
    assert_eq!(provider.get_selection(2050).as_deref(), Some("user"));
    assert_eq!(provider.get_selection(2100).as_deref(), Some("user"));
    assert_eq!(provider.get_selection(2150).as_deref(), Some("user"));
    assert_eq!(provider.get_selection(2300).as_deref(), Some("pass"));
    assert_eq!(provider.get_selection(2600), None);
    assert!(provider.is_done());
    assert_eq!(provider.current_selection_name(), None);
}

#[test]
fn clipboard_cold_start_counts_as_duplicate() {
    // Scenario: a first read right after startup is returned again by the
    // next read even outside the debounce window, without advancing.
    let values = vec!["user".to_string(), "pass".to_string()];
    let mut provider = SelectionDebounce::new("Mail account".to_string(), values, 1000);
    assert_eq!(provider.get_selection(1010).as_deref(), Some("user"));
    assert_eq!(provider.get_selection(1500).as_deref(), Some("user"));
    assert_eq!(provider.get_selection(1800).as_deref(), Some("pass"));
}

#[test]
fn clipboard_destroy_forces_done() {
    let values = vec!["user".to_string()];
    let mut provider = SelectionDebounce::new("Mail account".to_string(), values, 0);
    provider.destroy();
    assert!(provider.is_done());
    assert_eq!(provider.current_selection_name(), None);
}

#[test]
fn secret_to_clipboard_serves_the_selected_properties() {
    let mut service = service_with_store("main", 300);
    {
        let store = service.store_mut("main").expect("store");
        store
            .add_identity(
                &Identity {
                    id: "alice".to_string(),
                    name: "Alice".to_string(),
                    email: "alice@example.test".to_string(),
                },
                &SecretBytes::from_vec(b"pw1".to_vec()),
            )
            .expect("add identity");
        store
            .unlock("alice", &SecretBytes::from_vec(b"pw1".to_vec()), 0)
            .expect("unlock");
        store
            .add(
                &SecretVersion {
                    secret_id: "mail".to_string(),
                    timestamp: 5,
                    name: "Mail account".to_string(),
                    secret_type: "login".to_string(),
                    tags: vec![],
                    urls: vec![],
                    properties: vec![
                        Property {
                            name: "username".to_string(),
                            value: "alice".to_string(),
                        },
                        Property {
                            name: "password".to_string(),
                            value: "s3cr3t".to_string(),
                        },
                    ],
                    attachments: vec![],
                    deleted: false,
                },
                1,
            )
            .expect("add");
    }
    let properties = vec!["username".to_string(), "password".to_string()];
    service
        .secret_to_clipboard("main", "mail", &properties, "display-0", 1000)
        .expect("clipboard");
    assert!(!service.clipboard_is_done());
    assert_eq!(service.clipboard_currently_providing().as_deref(), Some("display-0"));
    assert_eq!(service.clipboard_get_selection(2000).as_deref(), Some("alice"));
    assert_eq!(service.clipboard_get_selection(2300).as_deref(), Some("s3cr3t"));
    assert_eq!(service.clipboard_get_selection(2600), None);
    assert!(service.clipboard_is_done());
    service.clipboard_destroy();
    assert!(service.clipboard_is_done());
}

#[test]
fn autolock_sweep_queues_store_locked_events() {
    let mut service = service_with_store("main", 1);
    {
        let store = service.store_mut("main").expect("store");
        store
            .add_identity(
                &Identity {
                    id: "alice".to_string(),
                    name: "Alice".to_string(),
                    email: "alice@example.test".to_string(),
                },
                &SecretBytes::from_vec(b"pw1".to_vec()),
            )
            .expect("add identity");
        store
            .unlock("alice", &SecretBytes::from_vec(b"pw1".to_vec()), 0)
            .expect("unlock");
    }
    assert_eq!(service.take_pending_events().len(), 0);
    service.check_autolock_at(1200);
    let events = service.take_pending_events();
    assert_eq!(events.len(), 1);
    if let Event::StoreLocked { store_name } = &events[0] {
        assert_eq!(store_name, "main");
    } else {
        panic!("expected a store-locked event");
    }
    assert_eq!(service.take_pending_events().len(), 0);
}

#[test]
fn clipboard_handoff_queues_events() {
    let mut service = service_with_store("main", 300);
    {
        let store = service.store_mut("main").expect("store");
        store
            .add_identity(
                &Identity {
                    id: "alice".to_string(),
                    name: "Alice".to_string(),
                    email: "alice@example.test".to_string(),
                },
                &SecretBytes::from_vec(b"pw1".to_vec()),
            )
            .expect("add identity");
        store
            .unlock("alice", &SecretBytes::from_vec(b"pw1".to_vec()), 0)
            .expect("unlock");
        store
            .add(
                &SecretVersion {
                    secret_id: "mail".to_string(),
                    timestamp: 5,
                    name: "Mail account".to_string(),
                    secret_type: "login".to_string(),
                    tags: vec![],
                    urls: vec![],
                    properties: vec![Property {
                        name: "password".to_string(),
                        value: "s3cr3t".to_string(),
                    }],
                    attachments: vec![],
                    deleted: false,
                },
                1,
            )
            .expect("add");
    }
    let properties = vec!["password".to_string()];
    service
        .secret_to_clipboard("main", "mail", &properties, "display-0", 1000)
        .expect("clipboard");
    service.clipboard_destroy();
    let events = service.take_pending_events();
    assert_eq!(events.len(), 2);
    assert!(matches!(&events[0], Event::ClipboardProviding { .. }));
    assert!(matches!(&events[1], Event::ClipboardDone));
}

#[test]
fn service_level_store_operations_queue_events() {
    let mut service = service_with_store("main", 300);
    service
        .store_mut("main")
        .expect("store")
        .add_identity(
            &Identity {
                id: "alice".to_string(),
                name: "Alice".to_string(),
                email: "alice@example.test".to_string(),
            },
            &SecretBytes::from_vec(b"pw1".to_vec()),
        )
        .expect("add identity");
    service
        .unlock_store("main", "alice", &SecretBytes::from_vec(b"pw1".to_vec()), 0)
        .expect("unlock");
    let block_id = service
        .store_secret(
            "main",
            &SecretVersion {
                secret_id: "mail".to_string(),
                timestamp: 5,
                name: "Mail account".to_string(),
                secret_type: "login".to_string(),
                tags: vec![],
                urls: vec![],
                properties: vec![Property {
                    name: "password".to_string(),
                    value: "s3cr3t".to_string(),
                }],
                attachments: vec![],
                deleted: false,
            },
            1,
        )
        .expect("store secret");
    assert_eq!(block_id.len(), 64);
    service.lock_store("main").expect("lock");
    assert!(service.store_mut("main").expect("store").status().locked);
    assert!(service.lock_store("missing").is_err());

    let events = service.take_pending_events();
    assert_eq!(events.len(), 3);
    if let Event::StoreUnlocked { store_name, identity_id } = &events[0] {
        assert_eq!(store_name, "main");
        assert_eq!(identity_id, "alice");
    } else {
        panic!("expected a store-unlocked event");
    }
    if let Event::SecretStored { store_name, secret_id } = &events[1] {
        assert_eq!(store_name, "main");
        assert_eq!(secret_id, "mail");
    } else {
        panic!("expected a secret-stored event");
    }
    assert!(matches!(&events[2], Event::StoreLocked { .. }));
}

#[test]
fn secret_to_clipboard_opens_the_store_on_demand() {
    let mut service = service_with_store("main", 300);
    service
        .unlock_store("main", "nobody", &SecretBytes::from_vec(b"pw".to_vec()), 0)
        .expect_err("no identity yet");
    // A configured but never-opened store is opened on demand; with nothing
    // unlocked the fetch then fails with a store error, not StoreNotFound.
    let mut fresh = create_service(Config {
        stores: vec![store_config("other", 300)],
        default_store: Some("other".to_string()),
    })
    .expect("create service");
    let r = fresh.secret_to_clipboard("other", "mail", &vec![], "d", 0);
    assert!(matches!(
        r,
        Err(t_rust_less::error::ServiceError::SecretsStore(_))
    ));
    assert!(matches!(
        fresh.secret_to_clipboard("missing", "mail", &vec![], "d", 0),
        Err(t_rust_less::error::ServiceError::StoreNotFound(_))
    ));
}

#[test]
fn event_handler_registry_hands_out_fresh_ids() {
    let mut service = create_service(Config {
        stores: Vec::new(),
        default_store: None,
    })
    .expect("create service");
    let sub1 = service.add_event_handler().expect("subscribe");
    let sub2 = service.add_event_handler().expect("subscribe");
    assert_ne!(sub1.id, sub2.id);
    service.unsubscribe(sub1);
    let sub3 = service.add_event_handler().expect("subscribe");
    assert_ne!(sub2.id, sub3.id);
    let handlers = service.event_handlers();
    assert!(handlers.contains(&sub2.id));
    assert!(handlers.contains(&sub3.id));
    assert!(!handlers.contains(&sub1_id_removed(sub2.id, sub3.id)));
}

fn sub1_id_removed(id2: u32, id3: u32) -> u32 {
    // The first id handed out was neither of the two still registered.
    let mut candidate: u32 = 0;
    while candidate == id2 || candidate == id3 {
        candidate += 1;
    }
    candidate
}
