use reattachd::auth::{AuthService, AuthStore, Device, SetupToken, SetupTokenValidation, Ttl};
use reattachd::gate::{authorize_request, GateDecision};

fn empty_service() -> AuthService {
    AuthService::new(AuthStore { devices: Vec::new(), setup_token: None })
}

const TEN_MINUTES: u64 = 600_000;

#[test]
fn generated_token_validates_until_expiry() {
    let mut svc = empty_service();
    let t = svc.generate_setup_token_at(false, Ttl::Millis(TEN_MINUTES), 1_000);
    assert_eq!(t.chars().count(), 43);
    assert_eq!(svc.validate_setup_token_at(&t, 1_000), SetupTokenValidation::Valid);
    assert_eq!(svc.validate_setup_token_at(&t, 1_000 + TEN_MINUTES - 1), SetupTokenValidation::Valid);
    assert_eq!(svc.validate_setup_token_at(&t, 1_000 + TEN_MINUTES), SetupTokenValidation::Expired);
    assert_eq!(svc.validate_setup_token_at("something-else", 1_000), SetupTokenValidation::Invalid);
}

#[test]
fn no_setup_token_is_invalid() {
    let svc = empty_service();
    assert_eq!(svc.validate_setup_token_at("anything", 0), SetupTokenValidation::Invalid);
}

#[test]
fn latest_setup_token_wins() {
    let mut svc = empty_service();
    let t1 = svc.generate_setup_token_at(false, Ttl::Millis(TEN_MINUTES), 1_000);
    let t2 = svc.generate_setup_token_at(true, Ttl::Millis(TEN_MINUTES), 2_000);
    assert_ne!(t1, t2);
    assert_eq!(svc.validate_setup_token_at(&t1, 2_500), SetupTokenValidation::Invalid);
    assert_eq!(svc.validate_setup_token_at(&t2, 2_500), SetupTokenValidation::Valid);
}

#[test]
fn never_expiring_token_outlives_any_clock() {
    let mut svc = empty_service();
    let t = svc.generate_setup_token_at(false, Ttl::Never, 5);
    assert_eq!(svc.validate_setup_token_at(&t, u64::MAX - 1), SetupTokenValidation::Valid);
}

#[test]
fn saturating_expiry_stays_finite() {
    let mut svc = empty_service();
    let t = svc.generate_setup_token_at(false, Ttl::Millis(u64::MAX), 10);
    assert_eq!(svc.validate_setup_token_at(&t, u64::MAX - 1), SetupTokenValidation::Valid);
}

#[test]
fn register_consumes_single_use_token() {
    // issue t1 (10 minutes, not reusable), register phone-A, then try phone-B
    let mut svc = empty_service();
    let t1 = svc.generate_setup_token_at(false, Ttl::Millis(TEN_MINUTES), 1_000);
    let device = svc.register_device_at(&t1, "phone-A", 2_000).expect("valid token");
    assert_ne!(device.token, t1);
    assert_eq!(device.name, "phone-A");
    assert_eq!(device.registered_at, 2_000);
    assert!(device.last_seen_at.is_none());
    assert_eq!(svc.validate_setup_token_at(&t1, 2_500), SetupTokenValidation::Invalid);
    let second = svc.register_device_at(&t1, "phone-B", 3_000);
    assert!(matches!(second, Err(SetupTokenValidation::Invalid)));
    assert_eq!(svc.list_devices().len(), 1);
}

#[test]
fn registered_credential_becomes_valid_and_was_fresh() {
    let mut svc = empty_service();
    let t = svc.generate_setup_token_at(false, Ttl::Millis(TEN_MINUTES), 0);
    assert!(svc.validate_device_token(&t).is_none());
    let device = svc.register_device_at(&t, "tablet", 1).expect("valid token");
    assert_eq!(device.token.chars().count(), 43);
    // the identity is a hyphenated UUID
    assert_eq!(device.id.chars().count(), 36);
    for (i, c) in device.id.chars().enumerate() {
        if i == 8 || i == 13 || i == 18 || i == 23 {
            assert_eq!(c, '-');
        } else {
            assert!(c.is_ascii_hexdigit());
        }
    }
    let found = svc.validate_device_token(&device.token).expect("token registered");
    assert_eq!(found.id, device.id);
    assert_eq!(found.name, "tablet");
}

#[test]
fn expired_token_registers_nothing() {
    let mut svc = empty_service();
    let t = svc.generate_setup_token_at(false, Ttl::Millis(TEN_MINUTES), 0);
    let r = svc.register_device_at(&t, "phone", TEN_MINUTES);
    assert!(matches!(r, Err(SetupTokenValidation::Expired)));
    assert_eq!(svc.list_devices().len(), 0);
    // the setup token itself survives a failed exchange
    assert_eq!(svc.validate_setup_token_at(&t, 1), SetupTokenValidation::Valid);
}

#[test]
fn reusable_token_survives_exchanges() {
    let mut svc = empty_service();
    let t = svc.generate_setup_token_at(true, Ttl::Millis(TEN_MINUTES), 0);
    let a = svc.register_device_at(&t, "first", 1).expect("valid");
    let b = svc.register_device_at(&t, "second", 2).expect("still valid");
    assert_ne!(a.token, b.token);
    assert_ne!(a.id, b.id);
    assert_eq!(svc.list_devices().len(), 2);
    assert_eq!(svc.validate_setup_token_at(&t, 3), SetupTokenValidation::Valid);
}

#[test]
fn update_last_seen_touches_only_the_named_device() {
    let mut svc = empty_service();
    let t = svc.generate_setup_token_at(true, Ttl::Millis(TEN_MINUTES), 0);
    let a = svc.register_device_at(&t, "a", 1).expect("valid");
    let b = svc.register_device_at(&t, "b", 2).expect("valid");
    svc.update_last_seen_at(&a.id, 99);
    let devices = svc.list_devices();
    let da = devices.iter().find(|d| d.id == a.id).expect("kept");
    let db = devices.iter().find(|d| d.id == b.id).expect("kept");
    assert_eq!(da.last_seen_at, Some(99));
    assert_eq!(db.last_seen_at, None);
    // unknown ids are a silent no-op
    svc.update_last_seen_at("no-such-id", 100);
    assert_eq!(svc.list_devices().len(), 2);
}

#[test]
fn revoke_removes_exactly_the_named_device() {
    let mut svc = empty_service();
    let t = svc.generate_setup_token_at(true, Ttl::Millis(TEN_MINUTES), 0);
    let a = svc.register_device_at(&t, "a", 1).expect("valid");
    let b = svc.register_device_at(&t, "b", 2).expect("valid");
    assert!(svc.has_devices());
    assert!(svc.revoke_device(&a.id));
    assert!(!svc.revoke_device(&a.id));
    assert!(svc.validate_device_token(&a.token).is_none());
    assert!(svc.validate_device_token(&b.token).is_some());
    assert!(svc.revoke_device(&b.id));
    assert!(!svc.has_devices());
}

#[test]
fn corrupt_snapshot_degrades_to_empty_store() {
    let dup = |name: &str| Device {
        id: String::from(name),
        name: String::from(name),
        token: String::from("same-credential"),
        registered_at: 0,
        last_seen_at: None,
    };
    let svc = AuthService::new(AuthStore {
        devices: vec![dup("one"), dup("two")],
        setup_token: None,
    });
    assert!(!svc.has_devices());
}

#[test]
fn snapshot_with_disjoint_tokens_is_kept() {
    let svc = AuthService::new(AuthStore {
        devices: vec![Device {
            id: String::from("id-1"),
            name: String::from("phone"),
            token: String::from("credential-1"),
            registered_at: 7,
            last_seen_at: Some(9),
        }],
        setup_token: Some(SetupToken {
            token: String::from("setup-1"),
            created_at: 1,
            expires_at: 2,
            reusable: false,
        }),
    });
    assert!(svc.has_devices());
    assert!(svc.validate_device_token("credential-1").is_some());
}

#[test]
fn gate_is_open_with_no_devices() {
    let svc = empty_service();
    assert!(matches!(authorize_request(&svc, None), GateDecision::AdmitOpen));
    assert!(matches!(authorize_request(&svc, Some("whatever")), GateDecision::AdmitOpen));
}

#[test]
fn gate_closes_once_a_device_exists() {
    let mut svc = empty_service();
    let t = svc.generate_setup_token_at(false, Ttl::Millis(TEN_MINUTES), 0);
    let device = svc.register_device_at(&t, "phone", 1).expect("valid");
    assert!(matches!(authorize_request(&svc, None), GateDecision::Reject));
    assert!(matches!(authorize_request(&svc, Some("wrong")), GateDecision::Reject));
    match authorize_request(&svc, Some(&device.token)) {
        GateDecision::Admit(d) => assert_eq!(d.id, device.id),
        _ => panic!("expected admission"),
    }
}

#[test]
fn reload_replaces_only_with_well_formed_snapshots() {
    let mut svc = empty_service();
    let t = svc.generate_setup_token_at(false, Ttl::Never, 0);
    // a snapshot whose setup token collides with a device token is corrupt
    let bad = AuthStore {
        devices: vec![Device {
            id: String::from("id-1"),
            name: String::from("n"),
            token: String::from("x"),
            registered_at: 0,
            last_seen_at: None,
        }],
        setup_token: Some(SetupToken {
            token: String::from("x"),
            created_at: 0,
            expires_at: 1,
            reusable: false,
        }),
    };
    svc.reload_from(bad);
    // the old state survives: the issued token still validates
    assert_eq!(svc.validate_setup_token_at(&t, 5), SetupTokenValidation::Valid);
    let good = AuthStore { devices: Vec::new(), setup_token: None };
    svc.reload_from(good);
    assert_eq!(svc.validate_setup_token_at(&t, 5), SetupTokenValidation::Invalid);
}

#[test]
fn minted_credentials_are_url_safe() {
    let tok = reattachd::token::generate_token();
    assert_eq!(tok.chars().count(), 43);
    assert!(tok.chars().all(|c| c.is_ascii_alphanumeric() || c == '-' || c == '_'));
    let other = reattachd::token::generate_token();
    assert_ne!(tok, other);
}

#[test]
fn registration_against_the_wall_clock() {
    let mut svc = empty_service();
    let t = svc.generate_setup_token(false, Ttl::Millis(TEN_MINUTES));
    assert_eq!(svc.validate_setup_token(&t), SetupTokenValidation::Valid);
    let device = svc.register_device(&t, "phone").expect("fresh token is valid");
    assert_eq!(device.name, "phone");
    assert!(svc.validate_device_token(&device.token).is_some());
}

#[test]
fn clock_reads_after_the_epoch() {
    // the build machine's clock is past 2020
    assert!(reattachd::clock::clock_millis() > 1_577_836_800_000);
}
