use node_registry::messages::{deregister_message, register_message, GREETING, NO_ACTIVE_NODES};
use node_registry::node::Node;
use node_registry::registry::Registry;

fn node(address: &str, port: u16) -> Node {
    Node::new(address.to_string(), port)
}

#[test]
fn fresh_registry_picks_nothing() {
    let r = Registry::new();
    assert!(r.is_empty());
    assert_eq!(r.len(), 0);
    assert!(r.pick_random().is_none());
    assert_eq!(NO_ACTIVE_NODES, "no active nodes in the network");
}

#[test]
fn register_then_pick_returns_the_node() {
    let mut r = Registry::new();
    let mut n = node("10.0.0.1", 9000);
    n.ipv6_address = Some("::1".to_string());
    r.register(n);
    assert_eq!(r.len(), 1);
    for _ in 0..100 {
        let p = r.pick_random().expect("one node is registered");
        assert_eq!(p.address, "10.0.0.1");
        assert_eq!(p.port, 9000);
        assert_eq!(p.ipv6_address, None);
    }
}

#[test]
fn deregister_removes_every_copy() {
    let mut r = Registry::new();
    for _ in 0..3 {
        r.register(node("10.0.0.2", 7000));
    }
    assert_eq!(r.len(), 3);
    r.deregister(&node("10.0.0.2", 7000));
    assert_eq!(r.len(), 0);
    assert!(r.pick_random().is_none());
}

#[test]
fn deregister_keeps_other_keys() {
    let mut r = Registry::new();
    r.register(node("10.0.0.1", 1));
    r.register(node("10.0.0.2", 2));
    r.register(node("10.0.0.1", 1));
    r.register(node("10.0.0.3", 3));
    r.deregister(&node("10.0.0.1", 1));
    assert_eq!(r.len(), 2);
    let a = r.select(0).unwrap();
    let b = r.select(1).unwrap();
    assert_eq!((a.address.as_str(), a.port), ("10.0.0.2", 2));
    assert_eq!((b.address.as_str(), b.port), ("10.0.0.3", 3));
}

#[test]
fn deregister_unknown_node_changes_nothing() {
    let mut r = Registry::new();
    r.register(node("10.0.0.1", 9000));
    r.register(node("10.0.0.2", 9001));
    r.deregister(&node("10.0.0.1", 9001));
    assert_eq!(r.len(), 2);
    r.deregister(&node("10.0.0.9", 9000));
    assert_eq!(r.len(), 2);
    let mut empty = Registry::new();
    empty.deregister(&node("10.0.0.1", 9000));
    assert_eq!(empty.len(), 0);
}

#[test]
fn select_reads_by_index() {
    let mut r = Registry::new();
    r.register(node("a", 1));
    r.register(node("b", 2));
    let first = r.select(0).unwrap();
    assert_eq!((first.address.as_str(), first.port), ("a", 1));
    let second = r.select(1).unwrap();
    assert_eq!((second.address.as_str(), second.port), ("b", 2));
    assert!(r.select(2).is_none());
    assert!(Registry::new().select(0).is_none());
}

#[test]
fn duplicates_weigh_the_draw() {
    let mut r = Registry::new();
    r.register(node("10.0.0.1", 1));
    r.register(node("10.0.0.2", 2));
    r.register(node("10.0.0.2", 2));
    let mut a: u32 = 0;
    let mut b: u32 = 0;
    for _ in 0..30000 {
        let p = r.pick_random().unwrap();
        if p.port == 1 {
            a += 1;
        } else {
            assert_eq!(p.port, 2);
            b += 1;
        }
    }
    assert!(a > 0);
    let ratio = b as f64 / a as f64;
    assert!(ratio > 1.8 && ratio < 2.2, "ratio {}", ratio);
}

#[test]
fn interleaved_registers_then_deregisters_leave_nothing() {
    let mut r = Registry::new();
    let count: u16 = 50;
    for i in 0..count {
        r.register(node(&format!("10.0.1.{}", i), 8000 + i));
    }
    assert_eq!(r.len(), count as usize);
    for i in 0..count as usize {
        let p = r.select(i).unwrap();
        assert_eq!(p.port, 8000 + i as u16);
    }
    for i in (0..count).rev() {
        r.deregister(&node(&format!("10.0.1.{}", i), 8000 + i));
        assert_eq!(r.len(), i as usize);
    }
    assert!(r.pick_random().is_none());
}

#[test]
fn register_query_deregister_round() {
    let mut r = Registry::new();
    let n = node("10.0.0.1", 9000);
    assert_eq!(register_message(&n), "register node 10.0.0.1:9000 successfully");
    r.register(n);
    let p = r.pick_random().unwrap();
    assert_eq!(p.address, "10.0.0.1");
    assert_eq!(p.port, 9000);
    let d = node("10.0.0.1", 9000);
    assert_eq!(deregister_message(&d), "deregister node 10.0.0.1:9000 successfully");
    r.deregister(&d);
    assert!(r.pick_random().is_none());
}

#[test]
fn messages_write_ports_in_decimal() {
    assert_eq!(register_message(&node("h", 0)), "register node h:0 successfully");
    assert_eq!(register_message(&node("h", 7)), "register node h:7 successfully");
    assert_eq!(register_message(&node("h", 10)), "register node h:10 successfully");
    assert_eq!(deregister_message(&node("", 65535)), "deregister node :65535 successfully");
    assert_eq!(deregister_message(&node("1.2.3.4", 8080)), "deregister node 1.2.3.4:8080 successfully");
    assert_eq!(GREETING, "Hello World!");
}
