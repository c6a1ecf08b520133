use eirc::registry::Registry;

#[test]
fn fresh_registry_is_empty() {
    let r = Registry::new();
    assert_eq!(r.count(), 0);
    assert!(!r.is_registered(0));
}

#[test]
fn register_assigns_distinct_ids() {
    let mut r = Registry::new();
    let a = r.register();
    let b = r.register();
    let c = r.register();
    assert_ne!(a, b);
    assert_ne!(a, c);
    assert_ne!(b, c);
    assert_eq!(r.count(), 3);
    assert!(r.is_registered(a));
    assert!(r.is_registered(b));
    assert!(r.is_registered(c));
}

#[test]
fn register_then_unregister_round_trip() {
    let mut r = Registry::new();
    let a = r.register();
    let before = r.count();
    assert!(r.is_registered(a));

    let b = r.register();
    r.unregister(b);

    assert_eq!(r.count(), before);
    assert!(r.is_registered(a));
    assert!(!r.is_registered(b));
}

#[test]
fn unregister_is_idempotent() {
    let mut r = Registry::new();
    let a = r.register();
    let b = r.register();
    r.unregister(a);
    assert_eq!(r.count(), 1);
    r.unregister(a);
    r.unregister(a);
    assert_eq!(r.count(), 1);
    assert!(r.is_registered(b));
}

#[test]
fn unregister_of_unknown_id_is_a_no_op() {
    let mut r = Registry::new();
    let a = r.register();
    r.unregister(a + 100);
    assert_eq!(r.count(), 1);
    assert!(r.is_registered(a));
}

#[test]
fn recipients_cover_everyone_but_the_excluded() {
    let mut r = Registry::new();
    let a = r.register();
    let b = r.register();
    let c = r.register();

    let everyone = r.recipients(None);
    assert_eq!(everyone.len(), 3);
    assert!(everyone.contains(&a));
    assert!(everyone.contains(&b));
    assert!(everyone.contains(&c));

    let others = r.recipients(Some(b));
    assert_eq!(others.len(), 2);
    assert!(others.contains(&a));
    assert!(!others.contains(&b));
    assert!(others.contains(&c));
}

#[test]
fn recipients_of_empty_registry_is_empty() {
    let r = Registry::new();
    assert!(r.recipients(None).is_empty());
    assert!(r.recipients(Some(7)).is_empty());
}
