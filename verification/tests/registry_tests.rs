use pubsub_registry::directory::{PublisherHandle, ResourceLocator};
use pubsub_registry::registry::{RegistrationImpl, RegistryImpl, ValidationError};
use pubsub_registry::topic::topic_is_valid;

fn host(addr: &str, port: u32) -> ResourceLocator {
    ResourceLocator::HostPair { host: addr.to_string(), port }
}

fn entries<'a>(registry: &'a RegistryImpl, topic: &str) -> Option<&'a Vec<PublisherHandle>> {
    registry
        .publishers
        .publishers
        .iter()
        .find(|t| t.topic == topic)
        .map(|t| &t.handles)
}

fn ids(registry: &RegistryImpl, topic: &str) -> Vec<u64> {
    entries(registry, topic)
        .map(|hs| hs.iter().map(|h| h.id).collect())
        .unwrap_or_default()
}

#[test]
fn accepts_path_shaped_topics() {
    for topic in [
        "/a",
        "/a/b/c",
        "/metrics/cpu",
        "/a.b_c9",
        "/..",
        "x/a",
        "/a b/c",
    ] {
        assert!(topic_is_valid(topic), "expected {topic:?} to be accepted");
        let mut registry = RegistryImpl::new();
        assert!(registry.register(topic, host("h", 1)).is_ok());
    }
}

#[test]
fn rejects_malformed_topics() {
    for topic in ["", "/", "a", "bad-topic", "/a-b", "/a/", "/a//", "/a/b ", "/#"] {
        assert!(!topic_is_valid(topic), "expected {topic:?} to be rejected");
        let mut registry = RegistryImpl::new();
        let r = registry.register(topic, host("h", 1));
        assert_eq!(r, Err(ValidationError));
        assert_eq!(registry.next_id, 0);
        assert!(registry.publishers.publishers.is_empty());
    }
}

#[test]
fn validation_error_message() {
    assert_eq!(ValidationError.message(), "topic does not exist");
}

#[test]
fn register_metrics_cpu_example() {
    let mut registry = RegistryImpl::new();
    let r = registry.register("/metrics/cpu", host("10.0.0.1", 9000));
    assert!(r.is_ok());
    assert_eq!(registry.publishers.publishers.len(), 1);
    let hs = entries(&registry, "/metrics/cpu").expect("topic must be present");
    assert_eq!(hs.len(), 1);
    assert_eq!(hs[0].id, 0);
    assert_eq!(hs[0].locator, host("10.0.0.1", 9000));

    let bad = registry.register("bad-topic", host("10.0.0.2", 9001));
    assert!(bad.is_err());
    assert_eq!(registry.publishers.publishers.len(), 1);
    assert_eq!(ids(&registry, "/metrics/cpu"), vec![0]);
}

#[test]
fn single_entry_after_register() {
    let mut registry = RegistryImpl::new();
    let locator = ResourceLocator::URL("tcp://pub.example:7000".to_string());
    let reg = registry.register("/a/b", locator).expect("valid topic");
    assert_eq!(reg.id, 0);
    assert_eq!(reg.topic, "/a/b");
    let hs = entries(&registry, "/a/b").expect("topic must be present");
    assert_eq!(hs.len(), 1);
    assert_eq!(
        hs[0],
        PublisherHandle { id: 0, locator: ResourceLocator::URL("tcp://pub.example:7000".to_string()) }
    );
}

#[test]
fn same_topic_and_locator_registers_independent_entries() {
    let mut registry = RegistryImpl::new();
    let a = registry.register("/t", host("h", 1)).unwrap();
    let b = registry.register("/t", host("h", 1)).unwrap();
    assert_ne!(a.id, b.id);
    assert_eq!(ids(&registry, "/t"), vec![0, 1]);
}

#[test]
fn release_first_of_two_keeps_second() {
    let mut registry = RegistryImpl::new();
    let mut first = registry.register("/x", host("a", 1)).unwrap();
    let _second = registry.register("/x", host("b", 2)).unwrap();
    first.release(&mut registry.publishers);
    let hs = entries(&registry, "/x").expect("topic must keep its second entry");
    assert_eq!(hs.len(), 1);
    assert_eq!(hs[0].id, 1);
    assert_eq!(hs[0].locator, host("b", 2));
}

#[test]
fn release_keeps_order_of_survivors() {
    let mut registry = RegistryImpl::new();
    let mut first = registry.register("/x", host("a", 1)).unwrap();
    let _second = registry.register("/x", host("b", 2)).unwrap();
    let _third = registry.register("/x", host("c", 3)).unwrap();
    first.release(&mut registry.publishers);
    assert_eq!(ids(&registry, "/x"), vec![1, 2]);
}

#[test]
fn release_last_removes_topic_key() {
    let mut registry = RegistryImpl::new();
    let mut only = registry.register("/solo", host("a", 1)).unwrap();
    only.release(&mut registry.publishers);
    assert!(entries(&registry, "/solo").is_none());
    assert!(registry.publishers.publishers.is_empty());
}

#[test]
fn ids_strictly_increase_and_are_never_reused() {
    let mut registry = RegistryImpl::new();
    let mut a = registry.register("/t", host("a", 1)).unwrap();
    let mut b = registry.register("/t", host("b", 2)).unwrap();
    assert_eq!(a.id, 0);
    assert_eq!(b.id, 1);
    b.release(&mut registry.publishers);
    a.release(&mut registry.publishers);
    assert!(entries(&registry, "/t").is_none());
    let c = registry.register("/t", host("c", 3)).unwrap();
    assert_eq!(c.id, 2);
    assert_eq!(ids(&registry, "/t"), vec![2]);
}

#[test]
fn double_release_removes_nothing_else() {
    let mut registry = RegistryImpl::new();
    let mut first = registry.register("/x", host("a", 1)).unwrap();
    let _second = registry.register("/x", host("b", 2)).unwrap();
    let _other = registry.register("/y", host("c", 3)).unwrap();
    first.release(&mut registry.publishers);
    assert_eq!(ids(&registry, "/x"), vec![1]);
    // releasing the same handle again must not touch the surviving entries
    first.release(&mut registry.publishers);
    assert_eq!(ids(&registry, "/x"), vec![1]);
    assert_eq!(ids(&registry, "/y"), vec![2]);
}

#[test]
fn interleaved_releases_converge_to_empty_topic() {
    // release in registration order
    let mut registry = RegistryImpl::new();
    let mut a = registry.register("/x", host("a", 1)).unwrap();
    let mut b = registry.register("/x", host("b", 2)).unwrap();
    a.release(&mut registry.publishers);
    b.release(&mut registry.publishers);
    assert!(entries(&registry, "/x").is_none());
    assert!(registry.publishers.publishers.is_empty());

    // release in the opposite order
    let mut registry = RegistryImpl::new();
    let mut a = registry.register("/x", host("a", 1)).unwrap();
    let mut b = registry.register("/x", host("b", 2)).unwrap();
    b.release(&mut registry.publishers);
    a.release(&mut registry.publishers);
    assert!(entries(&registry, "/x").is_none());
    assert!(registry.publishers.publishers.is_empty());
}

#[test]
fn registration_handle_fields() {
    let reg = RegistrationImpl::new(7, "/q".to_string());
    assert_eq!(reg.id, 7);
    assert_eq!(reg.topic, "/q");
    assert!(!reg.released);
}

#[test]
fn topics_are_independent() {
    let mut registry = RegistryImpl::new();
    let _a = registry.register("/a", host("a", 1)).unwrap();
    let mut b = registry.register("/b", host("b", 2)).unwrap();
    b.release(&mut registry.publishers);
    assert_eq!(ids(&registry, "/a"), vec![0]);
    assert!(entries(&registry, "/b").is_none());
}
