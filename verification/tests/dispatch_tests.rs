use gdsunrise::bus::EventBus;
use gdsunrise::dispatch::{next_pass, DispatchPass};
use gdsunrise::ingest::NormalizedEvent;
use gdsunrise::registry::Registry;

/// Runs a pass to its end. A send to a connection whose name is in `broken`
/// fails. Returns what was sent, as (identifier, connection name, payload).
fn run(
    pass: &mut DispatchPass<String>,
    registry: &mut Registry<String>,
    broken: &[&str],
) -> Vec<(u64, String, String)> {
    let mut sent = Vec::new();
    while !pass.is_done() {
        let (id, name) = {
            let target = pass.next_target().expect("a pass that is not done has a target");
            (target.id, target.sender.clone())
        };
        let delivered = !broken.contains(&name.as_str());
        sent.push((id, name, pass.payload().to_string()));
        pass.record(registry, delivered);
    }
    assert!(pass.next_target().is_none());
    sent
}

fn registry_of(names: &[&str]) -> Registry<String> {
    let mut reg = Registry::new();
    for name in names {
        reg.register(name.to_string());
    }
    reg
}

fn active(reg: &Registry<String>) -> Vec<u64> {
    let mut out = Vec::new();
    for c in reg.snapshot() {
        out.push(c.id);
    }
    out
}

#[test]
fn notify_reaches_every_active_connection_once() {
    let mut reg = registry_of(&["a", "b", "c", "d"]);
    let mut bus = EventBus::new();
    bus.notify("{\"x\":1}".to_string());
    let mut pass = next_pass(&mut bus, &reg).expect("one message waits");
    let sent = run(&mut pass, &mut reg, &[]);
    assert_eq!(
        sent,
        vec![
            (0, "a".to_string(), "{\"x\":1}".to_string()),
            (1, "b".to_string(), "{\"x\":1}".to_string()),
            (2, "c".to_string(), "{\"x\":1}".to_string()),
            (3, "d".to_string(), "{\"x\":1}".to_string()),
        ]
    );
    assert_eq!(active(&reg), vec![0, 1, 2, 3]);
    assert!(bus.is_empty());
}

#[test]
fn notify_without_connections_sends_nothing() {
    let mut reg: Registry<String> = Registry::new();
    let mut bus = EventBus::new();
    bus.notify("ping".to_string());
    let mut pass = next_pass(&mut bus, &reg).expect("one message waits");
    assert_eq!(pass.payload(), "ping");
    assert!(pass.is_done());
    assert!(pass.next_target().is_none());
    let sent = run(&mut pass, &mut reg, &[]);
    assert!(sent.is_empty());
    assert!(reg.is_empty());
    assert!(bus.is_empty());
    assert!(next_pass(&mut bus, &reg).is_none());
}

#[test]
fn failed_send_removes_only_that_connection() {
    let mut reg = registry_of(&["a", "b", "c"]);
    let mut pass = DispatchPass::begin(&reg, "m1".to_string());
    let sent = run(&mut pass, &mut reg, &["b"]);
    assert_eq!(sent.len(), 3);
    assert_eq!(sent[1].0, 1);
    assert_eq!(active(&reg), vec![0, 2]);
}

#[test]
fn failed_connection_is_absent_from_every_later_pass() {
    let mut reg = registry_of(&["a", "b", "c"]);
    let mut pass = DispatchPass::begin(&reg, "m1".to_string());
    run(&mut pass, &mut reg, &["a"]);
    for round in 0..3 {
        reg.register(format!("late{}", round));
        let mut later = DispatchPass::begin(&reg, "m2".to_string());
        let sent = run(&mut later, &mut reg, &[]);
        assert!(sent.iter().all(|(id, name, _)| *id != 0 && name != "a"));
        assert_eq!(sent.len(), 3 + round);
    }
    assert_eq!(active(&reg), vec![1, 2, 3, 4, 5]);
}

#[test]
fn removal_happens_before_the_next_target() {
    let mut reg = registry_of(&["a", "b"]);
    let mut pass = DispatchPass::begin(&reg, "m".to_string());
    assert_eq!(pass.next_target().map(|t| t.id), Some(0));
    pass.record(&mut reg, false);
    assert!(!reg.contains(0));
    assert!(reg.contains(1));
    assert_eq!(pass.next_target().map(|t| t.id), Some(1));
    pass.record(&mut reg, true);
    assert!(pass.is_done());
    assert_eq!(active(&reg), vec![1]);
}

#[test]
fn every_send_of_a_pass_may_fail() {
    let mut reg = registry_of(&["a", "b", "c"]);
    let mut pass = DispatchPass::begin(&reg, "m".to_string());
    let sent = run(&mut pass, &mut reg, &["a", "b", "c"]);
    assert_eq!(sent.len(), 3);
    assert!(reg.is_empty());
    let mut next = DispatchPass::begin(&reg, "n".to_string());
    assert!(run(&mut next, &mut reg, &[]).is_empty());
}

#[test]
fn late_registration_misses_the_running_pass_and_gets_the_next() {
    let mut reg = registry_of(&["a", "b"]);
    let mut bus = EventBus::new();
    bus.notify("first".to_string());
    let mut pass = next_pass(&mut bus, &reg).expect("one message waits");
    let late = reg.register("late".to_string());
    assert_eq!(late, 2);
    bus.notify("second".to_string());
    bus.notify("third".to_string());
    let sent = run(&mut pass, &mut reg, &[]);
    assert_eq!(sent.iter().map(|s| s.0).collect::<Vec<u64>>(), vec![0, 1]);
    for payload in ["second", "third"] {
        let mut next = next_pass(&mut bus, &reg).expect("a message waits");
        let sent = run(&mut next, &mut reg, &[]);
        assert_eq!(sent.iter().map(|s| s.0).collect::<Vec<u64>>(), vec![0, 1, 2]);
        assert!(sent.iter().all(|s| s.2 == payload));
    }
    assert!(next_pass(&mut bus, &reg).is_none());
}

#[test]
fn connection_removed_during_a_pass_is_still_attempted_once() {
    let mut reg = registry_of(&["a", "b"]);
    let mut pass = DispatchPass::begin(&reg, "m".to_string());
    reg.remove(1);
    let sent = run(&mut pass, &mut reg, &["b"]);
    assert_eq!(sent.iter().map(|s| s.0).collect::<Vec<u64>>(), vec![0, 1]);
    assert_eq!(active(&reg), vec![0]);
}

#[test]
fn bus_hands_messages_out_in_arrival_order() {
    let mut bus = EventBus::new();
    assert!(bus.is_empty());
    assert_eq!(bus.next_message(), None);
    bus.notify("chat: !roll".to_string());
    bus.notify("host update".to_string());
    bus.notify("".to_string());
    assert_eq!(bus.len(), 3);
    assert_eq!(bus.next_message(), Some("chat: !roll".to_string()));
    bus.notify("last".to_string());
    assert_eq!(bus.next_message(), Some("host update".to_string()));
    assert_eq!(bus.next_message(), Some("".to_string()));
    assert_eq!(bus.next_message(), Some("last".to_string()));
    assert_eq!(bus.next_message(), None);
    assert_eq!(bus.len(), 0);
}

#[test]
fn bus_keeps_the_payload_as_it_is() {
    let mut bus = EventBus::new();
    let payload = "  {\"k\": \"\u{00e9}\\n\"}\t!".to_string();
    bus.notify(payload.clone());
    assert_eq!(bus.next_message(), Some(payload));
}

#[test]
fn frame_is_a_text_frame_with_the_payload() {
    let reg = registry_of(&["a"]);
    let pass = DispatchPass::begin(&reg, "{\"hp\": 3}".to_string());
    let frame = pass.frame();
    assert!(frame.is_text());
    assert_eq!(frame.to_str(), Ok("{\"hp\": 3}"));
    assert_eq!(frame.as_bytes(), "{\"hp\": 3}".as_bytes());
    let empty = DispatchPass::begin(&reg, String::new());
    assert!(empty.frame().is_text());
    assert_eq!(empty.frame().to_str(), Ok(""));
    assert_ne!(empty.frame(), frame);
}

#[test]
fn published_event_travels_as_name_space_text() {
    let mut bus = EventBus::new();
    bus.notify("before".to_string());
    bus.publish(NormalizedEvent {
        username: "alice".to_string(),
        text: "!roll 20".to_string(),
        received_at: 9,
    });
    bus.notify("after".to_string());
    assert_eq!(bus.len(), 3);
    assert_eq!(bus.next_message(), Some("before".to_string()));
    assert_eq!(bus.next_message(), Some("alice !roll 20".to_string()));
    assert_eq!(bus.next_message(), Some("after".to_string()));
}

#[test]
fn chat_command_reaches_the_subscribers() {
    let mut reg = registry_of(&["a", "b"]);
    let mut bus = EventBus::new();
    bus.publish(NormalizedEvent {
        username: "alice".to_string(),
        text: "!roll 20".to_string(),
        received_at: 0,
    });
    let mut pass = next_pass(&mut bus, &reg).expect("one message waits");
    let sent = run(&mut pass, &mut reg, &[]);
    assert_eq!(
        sent,
        vec![
            (0, "a".to_string(), "alice !roll 20".to_string()),
            (1, "b".to_string(), "alice !roll 20".to_string()),
        ]
    );
}
