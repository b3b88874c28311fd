use reattachd::auth::{AuthStore, Device, SetupToken};
use reattachd::codec::{decode_auth_store, decode_registry, encode_auth_store, encode_registry};
use reattachd::notify::PushEndpoint;

fn sample_store() -> AuthStore {
    AuthStore {
        devices: vec![
            Device {
                id: String::from("11111111-2222-3333-4444-555555555555"),
                name: String::from("phone with spaces\nand a newline"),
                token: String::from("credential-A"),
                registered_at: 1_700_000_000_000,
                last_seen_at: Some(1_700_000_001_000),
            },
            Device {
                id: String::from("66666666-7777-8888-9999-000000000000"),
                name: String::from(""),
                token: String::from("credential-B"),
                registered_at: 0,
                last_seen_at: None,
            },
        ],
        setup_token: Some(SetupToken {
            token: String::from("setup|token|with|pipes"),
            created_at: 42,
            expires_at: u64::MAX,
            reusable: true,
        }),
    }
}

#[test]
fn store_survives_a_round_trip_field_for_field() {
    let store = sample_store();
    let text = encode_auth_store(&store);
    let back = decode_auth_store(&text).expect("own snapshot decodes");
    assert_eq!(back.devices.len(), 2);
    for (a, b) in store.devices.iter().zip(back.devices.iter()) {
        assert_eq!(a.id, b.id);
        assert_eq!(a.name, b.name);
        assert_eq!(a.token, b.token);
        assert_eq!(a.registered_at, b.registered_at);
        assert_eq!(a.last_seen_at, b.last_seen_at);
    }
    let st = store.setup_token.as_ref().unwrap();
    let bt = back.setup_token.as_ref().unwrap();
    assert_eq!(st.token, bt.token);
    assert_eq!(st.created_at, bt.created_at);
    assert_eq!(st.expires_at, bt.expires_at);
    assert_eq!(st.reusable, bt.reusable);
}

#[test]
fn empty_store_round_trips() {
    let store = AuthStore { devices: Vec::new(), setup_token: None };
    let text = encode_auth_store(&store);
    assert_eq!(text, "0\n0\n");
    let back = decode_auth_store(&text).expect("decodes");
    assert!(back.devices.is_empty());
    assert!(back.setup_token.is_none());
}

#[test]
fn one_device_snapshot_is_readable_text() {
    let store = AuthStore {
        devices: vec![Device {
            id: String::from("id"),
            name: String::from("n"),
            token: String::from("tok"),
            registered_at: 12,
            last_seen_at: None,
        }],
        setup_token: None,
    };
    assert_eq!(encode_auth_store(&store), "0\n1\n2\nid\n1\nn\n3\ntok\n12\n-\n");
}

#[test]
fn foreign_text_is_rejected() {
    assert!(decode_auth_store("").is_none());
    assert!(decode_auth_store("hello world").is_none());
    assert!(decode_auth_store("2\n").is_none());
    // a valid snapshot followed by trailing garbage is rejected wholesale
    let mut text = encode_auth_store(&AuthStore { devices: Vec::new(), setup_token: None });
    text.push_str("x");
    assert!(decode_auth_store(&text).is_none());
}

#[test]
fn device_count_is_honoured() {
    // claims two devices, holds one
    assert!(decode_auth_store("0\n2\n2\nid\n1\nn\n3\ntok\n12\n-\n").is_none());
}

#[test]
fn registry_survives_a_round_trip() {
    let endpoints = vec![
        PushEndpoint {
            platform_token: String::from("tok-1"),
            sandbox: true,
            owning_device_id: String::from("dev-1"),
            display_label: String::from("alpha"),
        },
        PushEndpoint {
            platform_token: String::from("tok-2"),
            sandbox: false,
            owning_device_id: String::from("dev-2"),
            display_label: String::from(""),
        },
    ];
    let text = encode_registry(&endpoints);
    let back = decode_registry(&text).expect("own snapshot decodes");
    assert_eq!(back.len(), 2);
    for (a, b) in endpoints.iter().zip(back.iter()) {
        assert_eq!(a.platform_token, b.platform_token);
        assert_eq!(a.sandbox, b.sandbox);
        assert_eq!(a.owning_device_id, b.owning_device_id);
        assert_eq!(a.display_label, b.display_label);
    }
}

#[test]
fn empty_registry_round_trips() {
    let text = encode_registry(&Vec::new());
    assert_eq!(text, "0\n");
    assert!(decode_registry(&text).expect("decodes").is_empty());
    assert!(decode_registry("junk").is_none());
}
