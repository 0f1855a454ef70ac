use gdsunrise::registry::{Connection, Inbound, Registry};

fn ids(snapshot: &Vec<Connection<String>>) -> Vec<u64> {
    let mut out = Vec::new();
    for c in snapshot {
        out.push(c.id);
    }
    out
}

#[test]
fn new_registry_is_empty() {
    let reg: Registry<String> = Registry::new();
    assert!(reg.is_empty());
    assert_eq!(reg.len(), 0);
    assert!(reg.snapshot().is_empty());
    assert!(!reg.contains(0));
}

#[test]
fn register_hands_out_fresh_identifiers_in_order() {
    let mut reg: Registry<String> = Registry::new();
    assert_eq!(reg.register("a".to_string()), 0);
    assert_eq!(reg.register("b".to_string()), 1);
    assert_eq!(reg.register("c".to_string()), 2);
    assert_eq!(reg.len(), 3);
    assert!(!reg.is_empty());
    assert!(reg.contains(0) && reg.contains(1) && reg.contains(2));
    assert!(!reg.contains(3));
}

#[test]
fn snapshot_copies_every_entry_in_registration_order() {
    let mut reg: Registry<String> = Registry::new();
    reg.register("a".to_string());
    reg.register("b".to_string());
    reg.register("c".to_string());
    let snap = reg.snapshot();
    assert_eq!(ids(&snap), vec![0, 1, 2]);
    assert_eq!(snap[0].sender, "a");
    assert_eq!(snap[1].sender, "b");
    assert_eq!(snap[2].sender, "c");
}

#[test]
fn snapshot_is_not_touched_by_later_changes() {
    let mut reg: Registry<String> = Registry::new();
    reg.register("a".to_string());
    reg.register("b".to_string());
    let snap = reg.snapshot();
    reg.remove(0);
    reg.register("c".to_string());
    assert_eq!(ids(&snap), vec![0, 1]);
    assert_eq!(ids(&reg.snapshot()), vec![1, 2]);
}

#[test]
fn remove_takes_out_only_the_named_connection() {
    let mut reg: Registry<String> = Registry::new();
    reg.register("a".to_string());
    reg.register("b".to_string());
    reg.register("c".to_string());
    reg.remove(1);
    let snap = reg.snapshot();
    assert_eq!(ids(&snap), vec![0, 2]);
    assert_eq!(snap[0].sender, "a");
    assert_eq!(snap[1].sender, "c");
    assert!(!reg.contains(1));
    assert_eq!(reg.len(), 2);
}

#[test]
fn remove_twice_is_the_same_as_once() {
    let mut once: Registry<String> = Registry::new();
    let mut twice: Registry<String> = Registry::new();
    for name in ["a", "b", "c"] {
        once.register(name.to_string());
        twice.register(name.to_string());
    }
    once.remove(1);
    twice.remove(1);
    twice.remove(1);
    assert_eq!(ids(&once.snapshot()), ids(&twice.snapshot()));
    assert_eq!(ids(&twice.snapshot()), vec![0, 2]);
    assert_eq!(once.len(), twice.len());
    assert_eq!(once.register("d".to_string()), twice.register("d".to_string()));
}

#[test]
fn remove_of_an_unknown_identifier_changes_nothing() {
    let mut reg: Registry<String> = Registry::new();
    reg.register("a".to_string());
    reg.remove(7);
    assert_eq!(ids(&reg.snapshot()), vec![0]);
    let mut empty: Registry<String> = Registry::new();
    empty.remove(0);
    assert!(empty.is_empty());
}

#[test]
fn identifiers_are_never_handed_out_twice() {
    let mut reg: Registry<String> = Registry::new();
    reg.register("a".to_string());
    reg.register("b".to_string());
    reg.remove(1);
    reg.remove(0);
    assert!(reg.is_empty());
    assert_eq!(reg.register("c".to_string()), 2);
    assert!(!reg.contains(0));
    assert!(!reg.contains(1));
    assert_eq!(ids(&reg.snapshot()), vec![2]);
}

#[test]
fn fresh_registry_can_register() {
    let mut reg: Registry<String> = Registry::new();
    assert!(reg.can_register());
    reg.register("a".to_string());
    assert!(reg.can_register());
}

#[test]
fn inbound_data_is_ignored_and_closure_removes() {
    let mut reg: Registry<String> = Registry::new();
    reg.register("a".to_string());
    reg.register("b".to_string());
    assert!(reg.observe(0, Inbound::Data));
    assert!(reg.observe(0, Inbound::Data));
    assert_eq!(ids(&reg.snapshot()), vec![0, 1]);
    assert!(!reg.observe(0, Inbound::Closed));
    assert_eq!(ids(&reg.snapshot()), vec![1]);
    assert!(!reg.observe(0, Inbound::Closed));
    assert_eq!(ids(&reg.snapshot()), vec![1]);
}
