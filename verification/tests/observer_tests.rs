use semverx_registry::observer::{Observer, ObserverError, ObserverManager, Update, UpdateType};
use semverx_registry::version::{SemverX, VersionState};
use uuid::Uuid;

fn version() -> SemverX {
    SemverX {
        major: 1,
        major_state: VersionState::Stable,
        minor: 0,
        minor_state: VersionState::Stable,
        patch: 0,
        patch_state: VersionState::Stable,
    }
}

fn update(id: &str) -> Update {
    Update {
        package_id: id.to_string(),
        old_version: None,
        new_version: version(),
        update_type: UpdateType::OptIn,
    }
}

fn observer(n: u128) -> Observer {
    Observer { id: Uuid::from_u128(n), last_notified: 0 }
}

#[test]
fn test_rate_limit_window() {
    let mut hub = ObserverManager::new(10);
    hub.register("pkg", observer(1)).unwrap();
    let u = update("pkg");
    // ten notifications inside one second pass, the eleventh is rejected
    for _ in 0..10 {
        assert!(hub.notify("pkg", &u, 5000).is_ok());
    }
    assert_eq!(hub.notify("pkg", &u, 5000), Err(ObserverError::RateLimitExceeded));
    // once the one-second window has elapsed, notification succeeds again
    assert!(hub.notify("pkg", &u, 6000).is_ok());
}

#[test]
fn test_observer_cap() {
    let mut hub = ObserverManager::new(10);
    for n in 0..100u128 {
        assert!(hub.register("pkg", observer(n)).is_ok());
    }
    assert_eq!(hub.register("pkg", observer(200)), Err(ObserverError::TooManyObservers));
    // the prior hundred stay registered and notifiable
    let ids = hub.notify("pkg", &update("pkg"), 1000).unwrap();
    assert_eq!(ids.len(), 100);
    assert_eq!(ids[0], Uuid::from_u128(0));
    assert_eq!(ids[99], Uuid::from_u128(99));
}

#[test]
fn test_notify_unknown_package() {
    let mut hub = ObserverManager::new(10);
    assert_eq!(
        hub.notify("missing", &update("missing"), 0),
        Err(ObserverError::PackageNotFound)
    );
}

#[test]
fn test_notify_stamps_and_delivers_in_order() {
    let mut hub = ObserverManager::new(5);
    hub.register("pkg", observer(7)).unwrap();
    hub.register("pkg", observer(8)).unwrap();
    hub.register("other", observer(9)).unwrap();
    let ids = hub.notify("pkg", &update("pkg"), 42).unwrap();
    assert_eq!(ids, vec![Uuid::from_u128(7), Uuid::from_u128(8)]);
    // registrations on another package are untouched
    let other = hub.notify("other", &update("other"), 43).unwrap();
    assert_eq!(other, vec![Uuid::from_u128(9)]);
}
