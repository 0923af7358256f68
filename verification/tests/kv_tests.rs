//! The primary-backup key-value store.

use faultline::kv::{Msg, Node};

#[test]
fn primary_write_produces_replication() {
    let mut p = Node::new(0, true);
    let msgs = p.client_write("x", 42, &[1, 2]);
    assert_eq!(msgs.len(), 2, "one replicate message per backup");
    assert_eq!(p.read("x"), Some(42));
}

#[test]
fn backup_applies_newer_ignores_older() {
    let mut b = Node::new(1, false);
    b.handle(0, Msg::Replicate { key: "x".into(), value: 1, version: 5 });
    assert_eq!(b.read("x"), Some(1));
    // Older version arrives late -> ignored.
    b.handle(0, Msg::Replicate { key: "x".into(), value: 999, version: 3 });
    assert_eq!(b.read("x"), Some(1), "stale replicate must be ignored");
    // Newer version -> applied.
    b.handle(0, Msg::Replicate { key: "x".into(), value: 7, version: 6 });
    assert_eq!(b.read("x"), Some(7));
}

#[test]
fn crashed_node_ignores_everything() {
    let mut b = Node::new(1, false);
    b.crash();
    b.handle(0, Msg::Replicate { key: "x".into(), value: 1, version: 1 });
    assert_eq!(b.read("x"), None, "crashed node must not apply writes");
}

#[test]
fn messages_carry_key_value_and_version() {
    let mut p = Node::new(0, true);
    p.client_write("a", 1, &[1]);
    let msgs = p.client_write("b", 9, &[2, 1]);
    let expected = [2usize, 1];
    assert_eq!(msgs.len(), 2);
    for (k, (to, m)) in msgs.iter().enumerate() {
        assert_eq!(*to, expected[k]);
        match m {
            Msg::Replicate { key, value, version } => {
                assert_eq!((key.as_str(), *value, *version), ("b", 9, 2));
            }
            _ => panic!("expected a replication message"),
        }
    }
    assert_eq!(p.next_version, 3);
}

#[test]
fn replies_acknowledge_the_version() {
    let mut b = Node::new(1, false);
    for version in [5u64, 3, 5] {
        let replies = b.handle(0, Msg::Replicate { key: "x".into(), value: 1, version });
        assert_eq!(replies.len(), 1);
        assert_eq!(replies[0].0, 0);
        assert!(matches!(replies[0].1, Msg::Ack { version: v } if v == version));
    }
    assert!(b.handle(2, Msg::Ack { version: 1 }).is_empty());
}

#[test]
fn backups_and_crashed_primaries_refuse_writes() {
    let mut b = Node::new(1, false);
    assert!(b.client_write("x", 1, &[2]).is_empty());
    assert_eq!(b.read("x"), None);
    let mut p = Node::new(0, true);
    p.client_write("x", 1, &[1]);
    p.crash();
    assert!(p.client_write("x", 2, &[1]).is_empty());
    assert_eq!(p.read("x"), Some(1));
    p.restart();
    assert_eq!(p.read("x"), Some(1), "a warm restart keeps the data");
    assert_eq!(p.client_write("x", 3, &[1]).len(), 1);
    assert_eq!(p.read("x"), Some(3));
}

#[test]
fn replication_order_does_not_matter() {
    let update = |v: u64| Msg::Replicate { key: "x".into(), value: 10 * v, version: v };
    let mut a = Node::new(1, false);
    let mut b = Node::new(2, false);
    for v in [1u64, 2, 3] {
        a.handle(0, update(v));
    }
    for v in [3u64, 1, 2, 3] {
        b.handle(0, update(v));
    }
    assert_eq!(a.read("x"), Some(30));
    assert_eq!(b.read("x"), Some(30));
}
