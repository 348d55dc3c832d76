use redis_lite::data::{Data, DataItem, InMemoryData};
use redis_lite::info::{create_info, parse_master_address, ReplicaRole};

#[test]
fn get_after_delete_is_absent() {
    let mut data = InMemoryData::new();
    data.set("k".to_string(), "v".to_string(), None, 0);
    data.del("k");
    assert_eq!(data.get("k", 0), None);
    data.del("missing");
    assert_eq!(data.get("missing", 0), None);
}

#[test]
fn zero_ttl_is_absent_at_once() {
    let mut data = InMemoryData::new();
    data.set("k".to_string(), "v".to_string(), Some(0), 500);
    assert_eq!(data.get("k", 500), None);
    assert_eq!(data.get("k", 501), None);
}

#[test]
fn no_ttl_persists() {
    let mut data = InMemoryData::new();
    data.set("k".to_string(), "v".to_string(), None, 0);
    data.set("other".to_string(), "w".to_string(), Some(1), 0);
    data.expire_keys(u64::MAX);
    assert_eq!(data.get("k", u64::MAX), Some("v".to_string()));
    assert_eq!(data.get("other", u64::MAX), None);
    data.set("k".to_string(), "v2".to_string(), None, 5);
    assert_eq!(data.get("k", 6), Some("v2".to_string()));
}

#[test]
fn ttl_boundary() {
    let mut data = InMemoryData::new();
    data.set("k".to_string(), "v".to_string(), Some(50), 100);
    assert_eq!(data.get("k", 150), Some("v".to_string()));
    assert_eq!(data.get("k", 151), None);
}

#[test]
fn sweep_removes_only_expired_and_is_idempotent() {
    let mut data = InMemoryData::new();
    data.set("a".to_string(), "1".to_string(), Some(10), 0);
    data.set("b".to_string(), "2".to_string(), Some(100), 0);
    data.set("c".to_string(), "3".to_string(), None, 0);
    data.expire_keys(50);
    assert_eq!(data.get("a", 0), None);
    assert_eq!(data.get("b", 0), Some("2".to_string()));
    assert_eq!(data.get("c", 0), Some("3".to_string()));
    data.expire_keys(50);
    assert_eq!(data.get("a", 0), None);
    assert_eq!(data.get("b", 0), Some("2".to_string()));
    assert_eq!(data.get("c", 0), Some("3".to_string()));
    data.set("a".to_string(), "again".to_string(), None, 60);
    assert_eq!(data.get("a", 60), Some("again".to_string()));
}

#[test]
fn item_expiry() {
    let item = DataItem::new("v".to_string(), 10, Some(5));
    assert!(!item.is_expired(15));
    assert!(item.is_expired(16));
    assert!(!item.is_expired(3));
    assert!(!DataItem::new("v".to_string(), 10, None).is_expired(u64::MAX));
}

#[test]
fn master_address_is_host_then_port() {
    assert_eq!(parse_master_address("localhost 6379"), Some(("localhost".to_string(), 6379)));
    assert_eq!(parse_master_address("127.0.0.1 +80 ignored"), Some(("127.0.0.1".to_string(), 80)));
    assert_eq!(parse_master_address("localhost"), None);
    assert_eq!(parse_master_address("localhost 65536"), None);
    assert_eq!(parse_master_address("localhost  6379"), None);
    assert_eq!(parse_master_address(" 1"), Some((String::new(), 1)));
}

#[test]
fn role_names_and_accessors() {
    assert_eq!(ReplicaRole::MASTER.to_string(), "master");
    assert_eq!(ReplicaRole::SLAVE.to_string(), "slave");
    let info = create_info(7000, ReplicaRole::MASTER, None, None);
    assert_eq!(info.server.port(), 7000);
    assert_eq!(*info.replication.master_repl_offset(), 0);
    assert_eq!(info.replication.master_replid().len(), 40);
    let replica = create_info(7001, ReplicaRole::SLAVE, Some("h".to_string()), Some(1));
    assert!(replica.replication.master_replid.is_none());
    assert_eq!(replica.replication.master_addr(), "h:1");
    let primary = create_info(7002, ReplicaRole::MASTER, Some("h".to_string()), None);
    assert!(primary.replication.master_host.is_none());
    assert!(primary.replication.master_port.is_none());
}

#[test]
fn set_delete_cycles_keep_one_entry() {
    let mut data = InMemoryData::new();
    for round in 0..5u64 {
        data.set("k".to_string(), format!("v{}", round), Some(10), round);
        data.set("other".to_string(), "w".to_string(), None, round);
        data.del("k");
        assert_eq!(data.get("k", round), None);
        data.set("k".to_string(), format!("v{}", round), Some(10), round);
    }
    data.expire_keys(10);
    assert_eq!(data.get("k", 10), Some("v4".to_string()));
    assert_eq!(data.get("other", 10), Some("w".to_string()));
    data.expire_keys(100);
    assert_eq!(data.get("k", 100), None);
    assert_eq!(data.get("other", 100), Some("w".to_string()));
    data.del("other");
    data.del("other");
    assert_eq!(data.get("other", 100), None);
}
