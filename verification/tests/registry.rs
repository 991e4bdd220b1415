//! Tests of the device registry's state machine: consistency of applied
//! mutations, the shutdown sequence, and the reader snapshot.

use cannyls_rpc::device::DeviceId;
use cannyls_rpc::error::ErrorKind;
use cannyls_rpc::registry::DeviceRegistry;

fn id(s: &str) -> DeviceId {
    DeviceId::new(s.to_string())
}

#[test]
fn put_becomes_visible_once_applied() {
    let mut reg: DeviceRegistry<u32> = DeviceRegistry::new();
    assert!(!reg.contains_device(&id("foo")));
    reg.put_device(id("foo"), 7).unwrap();
    // The mutation is queued: a read right after the submission may not see
    // it yet.
    assert!(!reg.contains_device(&id("foo")));
    reg.drain_commands();
    assert!(reg.contains_device(&id("foo")));
    assert_eq!(reg.get_device(&id("foo")).unwrap(), &7);
}

#[test]
fn put_replaces_and_delete_removes() {
    let mut reg: DeviceRegistry<u32> = DeviceRegistry::new();
    reg.put_device(id("foo"), 7).unwrap();
    reg.put_device(id("foo"), 8).unwrap();
    reg.drain_commands();
    assert_eq!(reg.get_device(&id("foo")).unwrap(), &8);
    reg.delete_device(id("foo")).unwrap();
    reg.drain_commands();
    assert!(!reg.contains_device(&id("foo")));
    assert_eq!(
        reg.get_device(&id("foo")).unwrap_err().kind,
        ErrorKind::InvalidInput
    );
    // Deleting an unknown device is accepted and ignored.
    reg.delete_device(id("bar")).unwrap();
    reg.drain_commands();
}

#[test]
fn list_devices_shows_the_snapshot() {
    let mut reg: DeviceRegistry<u32> = DeviceRegistry::new();
    reg.put_device(id("a"), 1).unwrap();
    reg.put_device(id("b"), 2).unwrap();
    reg.drain_commands();
    let mut names: Vec<String> = reg
        .list_devices()
        .into_iter()
        .map(|d| d.into_string())
        .collect();
    names.sort();
    assert_eq!(names, vec!["a".to_string(), "b".to_string()]);
}

#[test]
fn stop_ignores_later_puts_but_accepts_them() {
    let mut reg: DeviceRegistry<u32> = DeviceRegistry::new();
    reg.put_device(id("early"), 1).unwrap();
    reg.drain_commands();
    let to_signal = reg.stop();
    assert_eq!(to_signal.len(), 1);
    assert_eq!(to_signal[0].as_str(), "early");
    // Accepted without error...
    reg.put_device(id("late"), 2).unwrap();
    reg.drain_commands();
    // ...but never visible.
    assert!(!reg.contains_device(&id("late")));
    assert!(reg.contains_device(&id("early")));
}

#[test]
fn completion_waits_for_every_device() {
    let mut reg: DeviceRegistry<u32> = DeviceRegistry::new();
    reg.put_device(id("a"), 1).unwrap();
    reg.put_device(id("b"), 2).unwrap();
    reg.drain_commands();
    assert!(!reg.is_done());
    let to_signal = reg.stop();
    assert_eq!(to_signal.len(), 2);
    assert!(!reg.is_done());
    reg.on_device_terminated(&id("a"));
    assert!(!reg.is_done());
    reg.on_device_terminated(&id("b"));
    assert!(reg.is_done());
}

#[test]
fn terminated_devices_stay_until_deleted() {
    let mut reg: DeviceRegistry<u32> = DeviceRegistry::new();
    reg.put_device(id("a"), 1).unwrap();
    reg.drain_commands();
    reg.on_device_terminated(&id("a"));
    assert!(reg.contains_device(&id("a")));
    assert_eq!(reg.stop_device(&id("a")), Some((&1, true)));
    assert_eq!(reg.stop_device(&id("missing")), None);
    reg.delete_device(id("a")).unwrap();
    reg.drain_commands();
    assert!(!reg.contains_device(&id("a")));
}

#[test]
fn closed_registry_rejects_mutations_and_shows_nothing() {
    let mut reg: DeviceRegistry<u32> = DeviceRegistry::new();
    reg.put_device(id("a"), 1).unwrap();
    reg.drain_commands();
    reg.close();
    assert!(!reg.contains_device(&id("a")));
    assert_eq!(reg.list_devices().len(), 0);
    assert_eq!(
        reg.put_device(id("b"), 2).unwrap_err().kind,
        ErrorKind::Other
    );
    assert_eq!(
        reg.delete_device(id("a")).unwrap_err().kind,
        ErrorKind::Other
    );
}
