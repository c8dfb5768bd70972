use symmetrical_octo_potato::init_state::{Init, Initable};
use symmetrical_octo_potato::log::{Log, LogKey};
use symmetrical_octo_potato::wire_key::{format_key, parse_key};

fn init_for(node: &str) -> Init {
    Init {
        node_id: node.to_string(),
        node_ids: vec![node.to_string()],
    }
}

fn key(node: &str, counter: usize) -> LogKey {
    LogKey { node: node.to_string(), counter }
}

#[test]
fn local_inserts_make_distinct_keys() {
    // three inserts on one node: three distinct keys, counters 0, 1, 2
    let mut log: Log<usize> = Log::with_init(init_for("n1"));
    assert_eq!(log.insert(&10), Some(10));
    assert_eq!(log.insert(&20), Some(20));
    assert_eq!(log.insert(&30), Some(30));
    assert_eq!(log.values(), vec![10, 20, 30]);
    assert!(log.contains_key(&key("n1", 0)));
    assert!(log.contains_key(&key("n1", 1)));
    assert!(log.contains_key(&key("n1", 2)));
    assert!(!log.contains_key(&key("n1", 3)));
    assert!(!log.contains_key(&key("n2", 0)));
}

#[test]
fn insert_with_key_first_wins() {
    let mut log: Log<usize> = Log::with_init(init_for("n1"));
    assert_eq!(log.insert_with_key(&key("n2", 0), &7), Some(7));
    // the same key again: a no-op that reports nothing new
    assert_eq!(log.insert_with_key(&key("n2", 0), &8), None);
    assert_eq!(log.get(&key("n2", 0)), Some(&7));
    assert_eq!(log.values(), vec![7]);
}

#[test]
fn merge_twice_is_merge_once() {
    // idempotence: merging the same payload twice changes nothing more
    let seen = vec![(key("n2", 0), 5), (key("n2", 1), 6)];
    let mut once: Log<usize> = Log::with_init(init_for("n1"));
    once.insert(&1);
    let mut twice: Log<usize> = Log::with_init(init_for("n1"));
    twice.insert(&1);
    once.merge(&seen);
    twice.merge(&seen);
    twice.merge(&seen);
    assert_eq!(once.values(), twice.values());
    assert_eq!(once.get(&key("n2", 0)), Some(&5));
    assert_eq!(once.get(&key("n2", 1)), Some(&6));
    assert_eq!(twice.get(&key("n2", 0)), Some(&5));
    assert_eq!(twice.get(&key("n2", 1)), Some(&6));
}

#[test]
fn disjoint_merges_commute() {
    // commutativity: two disjoint-key merges in either order agree key by key
    let a = vec![(key("n2", 0), 5), (key("n2", 1), 6)];
    let b = vec![(key("n3", 0), 7)];
    let mut ab: Log<usize> = Log::with_init(init_for("n1"));
    ab.insert(&1);
    let mut ba: Log<usize> = Log::with_init(init_for("n1"));
    ba.insert(&1);
    ab.merge(&a);
    ab.merge(&b);
    ba.merge(&b);
    ba.merge(&a);
    for k in [key("n1", 0), key("n2", 0), key("n2", 1), key("n3", 0)] {
        assert_eq!(ab.get(&k), ba.get(&k), "logs disagree at {}", format_key(&k));
    }
    assert_eq!(ab.values().len(), 4);
    assert_eq!(ba.values().len(), 4);
}

#[test]
fn merge_never_overwrites() {
    let mut log: Log<usize> = Log::with_init(init_for("n1"));
    log.insert(&1);
    // a remote entry under a key we already hold is discarded
    log.merge(&vec![(key("n1", 0), 999)]);
    assert_eq!(log.get(&key("n1", 0)), Some(&1));
}

#[test]
fn wire_keys_round_trip() {
    let k = key("n1", 7);
    let text = format_key(&k);
    assert_eq!(text, "n1-7");
    let back = parse_key(&text).unwrap();
    assert_eq!(back.node, "n1");
    assert_eq!(back.counter, 7);

    let zero = format_key(&key("n3", 0));
    assert_eq!(zero, "n3-0");
    let back = parse_key(&zero).unwrap();
    assert_eq!(back.counter, 0);
}

#[test]
fn wire_keys_split_at_last_dash() {
    let k = parse_key("a-b-12").unwrap();
    assert_eq!(k.node, "a-b");
    assert_eq!(k.counter, 12);
    assert_eq!(format_key(&k), "a-b-12");
}

#[test]
fn malformed_wire_keys_are_rejected() {
    assert!(parse_key("nodash").is_none());
    assert!(parse_key("n1-").is_none());
    assert!(parse_key("n1-007").is_none());
    assert!(parse_key("n1-1x2").is_none());
    assert!(parse_key("n1-99999999999999999999999999").is_none());
}

#[test]
fn empty_node_names_still_round_trip() {
    let k = key("", 5);
    assert_eq!(format_key(&k), "-5");
    let back = parse_key("-5").unwrap();
    assert_eq!(back.node, "");
    assert_eq!(back.counter, 5);
}

#[test]
fn merging_a_duplicated_entry_keeps_its_first_value() {
    let mut log: Log<usize> = Log::with_init(init_for("n1"));
    log.merge(&vec![(key("n2", 0), 5), (key("n2", 0), 6)]);
    assert_eq!(log.get(&key("n2", 0)), Some(&5));
    assert_eq!(log.values(), vec![5]);
}
