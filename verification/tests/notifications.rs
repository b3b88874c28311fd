use reattachd::notify::{
    format_title, should_remove, ApnsService, DeliveryOutcome, DispatchResult, PushEndpoint,
};

fn endpoint(token: &str, label: &str) -> PushEndpoint {
    PushEndpoint {
        platform_token: String::from(token),
        sandbox: true,
        owning_device_id: String::from("device-1"),
        display_label: String::from(label),
    }
}

fn service(endpoints: Vec<PushEndpoint>) -> ApnsService {
    ApnsService::new(String::from("com.example.daemon"), endpoints)
}

#[test]
fn short_titles_pass_through() {
    assert_eq!(format_title("", "build done"), "build done");
    assert_eq!(format_title("box", "build done"), "box: build done");
}

#[test]
fn long_title_with_label_meets_the_budget_exactly() {
    // the scenario: an 8-character label and a 60-character title
    let label = "prod-box";
    let title = "abcdefghijklmnopqrstuvwxyz0123456789ABCDEFGHIJKLMNOPQRSTUVWX";
    assert_eq!(title.chars().count(), 60);
    let formatted = format_title(label, title);
    assert_eq!(formatted.chars().count(), 40);
    assert!(formatted.starts_with("prod-box: ..."));
    // the last 27 characters of the original survive
    let suffix: String = title.chars().skip(60 - 27).collect();
    assert!(formatted.ends_with(&suffix));
    assert_eq!(formatted, "prod-box: ...789ABCDEFGHIJKLMNOPQRSTUVWX");
}

#[test]
fn long_title_without_label_keeps_its_tail() {
    let title = "0123456789012345678901234567890123456789012345";
    let formatted = format_title("", title);
    assert_eq!(formatted.chars().count(), 40);
    assert!(formatted.starts_with("..."));
    let suffix: String = title.chars().skip(title.chars().count() - 37).collect();
    assert!(formatted.ends_with(&suffix));
}

#[test]
fn oversized_label_keeps_only_the_marker() {
    let label = "0123456789012345678901234567890123456789";
    let formatted = format_title(label, "whatever title");
    assert_eq!(formatted, format!("{}: ...", label));
}

#[test]
fn registration_is_idempotent_by_platform_token() {
    // two registrations with the same token and different labels leave one
    // endpoint carrying the latest label
    let mut svc = service(Vec::new());
    assert!(svc.register_device(
        String::from("tok-1"),
        true,
        String::from("device-1"),
        String::from("label-A"),
    ));
    assert!(svc.register_device(
        String::from("tok-1"),
        true,
        String::from("device-1"),
        String::from("label-B"),
    ));
    assert_eq!(svc.endpoints.len(), 1);
    assert_eq!(svc.endpoints[0].display_label, "label-B");
    // an exact repeat changes nothing, so nothing is persisted
    assert!(!svc.register_device(
        String::from("tok-1"),
        true,
        String::from("device-1"),
        String::from("label-B"),
    ));
    assert_eq!(svc.endpoints.len(), 1);
}

#[test]
fn distinct_tokens_accumulate() {
    let mut svc = service(Vec::new());
    assert!(svc.register_device(String::from("a"), true, String::from("d"), String::from("l")));
    assert!(svc.register_device(String::from("b"), false, String::from("d"), String::from("l")));
    assert_eq!(svc.endpoints.len(), 2);
}

#[test]
fn planning_with_no_endpoints_is_a_distinct_error() {
    let svc = service(Vec::new());
    let r = svc.plan_notification("t", "b", None);
    assert!(matches!(r, Err(reattachd::notify::ApnsError::NoDeviceToken)));
}

#[test]
fn planning_prepares_one_message_per_endpoint() {
    let svc = service(vec![endpoint("tok-e", "alpha"), endpoint("tok-f", "")]);
    let plan = svc.plan_notification("done", "body text", Some("main:1.2")).expect("endpoints");
    assert_eq!(plan.len(), 2);
    assert_eq!(plan[0].platform_token, "tok-e");
    assert_eq!(plan[0].title, "alpha: done");
    assert_eq!(plan[0].body, "body text");
    assert_eq!(plan[0].routing_target.as_deref(), Some("main:1.2"));
    assert_eq!(plan[1].platform_token, "tok-f");
    assert_eq!(plan[1].title, "done");
}

#[test]
fn only_the_permanent_reason_removes() {
    assert!(should_remove(&DeliveryOutcome::BadDeviceToken));
    assert!(!should_remove(&DeliveryOutcome::Delivered));
    assert!(!should_remove(&DeliveryOutcome::TransientError));
}

#[test]
fn bad_device_token_prunes_only_that_endpoint() {
    // the provider rejects E permanently; F still received its message and stays
    let mut svc = service(vec![endpoint("tok-e", "e"), endpoint("tok-f", "f")]);
    let plan = svc.plan_notification("t", "b", None).expect("endpoints");
    assert_eq!(plan.len(), 2);
    let results = vec![
        DispatchResult {
            platform_token: String::from("tok-e"),
            outcome: DeliveryOutcome::BadDeviceToken,
        },
        DispatchResult {
            platform_token: String::from("tok-f"),
            outcome: DeliveryOutcome::Delivered,
        },
    ];
    assert!(svc.settle_dispatch(&results));
    assert_eq!(svc.endpoints.len(), 1);
    assert_eq!(svc.endpoints[0].platform_token, "tok-f");
}

#[test]
fn transient_failures_prune_nothing() {
    let mut svc = service(vec![endpoint("tok-e", "e"), endpoint("tok-f", "f")]);
    let results = vec![
        DispatchResult {
            platform_token: String::from("tok-e"),
            outcome: DeliveryOutcome::TransientError,
        },
        DispatchResult {
            platform_token: String::from("tok-f"),
            outcome: DeliveryOutcome::Delivered,
        },
    ];
    assert!(!svc.settle_dispatch(&results));
    assert_eq!(svc.endpoints.len(), 2);
}

#[test]
fn corrupt_registry_snapshot_degrades_to_empty() {
    let svc = service(vec![endpoint("same", "a"), endpoint("same", "b")]);
    assert_eq!(svc.endpoints.len(), 0);
}
