use std::collections::HashMap;

use rublo::codec::{decode, encode};
use rublo::database::FilterDatabase;
use rublo::hashing::key_hash;
use rublo::filter::{Fpp, Geometry, ScalableBloomFilter, ScaleFactor, StageRequest, TIGHTENING_PERCENT};
use rublo::server::{after_accept_failure, dump, handle_line, line_cold_target, sweep, AcceptStep, Outcome, FIRST_BACKOFF, MAX_BACKOFF};

fn hash(bytes: &[u8], seed: u32) -> u32 {
    key_hash(bytes, seed)
}

fn sizing(q: StageRequest) -> Geometry {
    let ln2 = std::f64::consts::LN_2;
    let p = q.fpp.mantissa as f64 / 10f64.powi(q.fpp.scale as i32)
        * (TIGHTENING_PERCENT as f64 / 100.0).powi(q.tightening as i32);
    let n = q.capacity as f64;
    let m = (-n * p.ln() / (ln2 * ln2)).ceil() as usize;
    let k = ((m as f64 / n) * ln2).ceil() as u32;
    Geometry { bits: m, hashes: k }
}

/// A registry with a disk made of a map from name to stored bytes.
struct Node {
    db: FilterDatabase,
    disk: HashMap<String, Vec<u8>>,
}

impl Node {
    fn new() -> Node {
        Node { db: FilterDatabase::new(), disk: HashMap::new() }
    }

    fn run(&mut self, line: &str, now: i64) -> String {
        let stored = line_cold_target(&self.db, line)
            .map(|n| self.disk.get(&n).cloned().ok_or_else(|| "no such file".to_string()));
        let Outcome { response, store, remove } = handle_line(&mut self.db, line, stored, &hash, &sizing, now);
        if let Some((name, bytes)) = store {
            self.disk.insert(name, bytes);
        }
        if let Some(name) = remove {
            self.disk.remove(&name);
        }
        response.serialize()
    }
}

#[test]
fn create_set_check_scenario() {
    let mut node = Node::new();
    assert_eq!(node.run("create foo 5 0.01", 10), "Done");
    assert_eq!(node.run("set foo vega", 11), "Done");
    assert_eq!(node.run("check foo vega", 12), "True");
    assert_eq!(node.run("check foo blazar", 13), "False");
}

#[test]
fn unknown_filter_scenario() {
    let mut node = Node::new();
    assert_eq!(node.run("check bar x", 1), "Error: no scalable filter named bar");
    assert_eq!(node.run("set bar x", 1), "Error: no scalable filter named bar");
    assert_eq!(node.run("info bar", 1), "Error: no scalable filter named bar");
    assert_eq!(node.run("drop bar", 1), "Error: no scalable filter named bar");
    assert_eq!(node.run("clear bar", 1), "Error: no scalable filter named bar");
    assert_eq!(node.run("persist bar", 1), "Error: no scalable filter named bar");
}

#[test]
fn info_scenario() {
    let mut node = Node::new();
    assert_eq!(node.run("create foo 5 0.01", 0), "Done");
    assert_eq!(node.run("set foo vega", 60), "Done");
    assert_eq!(
        node.run("info foo", 120),
        "foo capacity: 99 size: 1 space: 12 filters: 1 hash functions: 7 hits: 0 miss: 0 \
         creation: 1970-01-01T00:00:00+00:00 last access: 1970-01-01T00:01:00+00:00"
    );
    assert_eq!(node.run("create bar", 0), "Done");
    assert_eq!(node.run("set bar vega", 0), "Done");
    assert!(node.run("info bar", 0).starts_with("bar capacity: 645452 size: 1 "));
}

#[test]
fn parser_error_scenario() {
    let mut node = Node::new();
    assert_eq!(node.run("create bad foo 0.01", 0), "Error: parser error: capacity must be an i64 value");
    assert_eq!(node.run("list", 0), "");
    assert_eq!(node.run("nonsense", 0), "Error: parser error: unknown command");
}

#[test]
fn accept_backoff_doubles_then_gives_up() {
    let mut backoff = FIRST_BACKOFF;
    let mut waits = Vec::new();
    loop {
        match after_accept_failure(backoff) {
            AcceptStep::Retry { wait, next } => {
                waits.push(wait);
                backoff = next;
            }
            AcceptStep::GiveUp => break,
        }
    }
    assert_eq!(waits, vec![1, 2, 4, 8, 16, 32, 64, 128]);
    assert_eq!(backoff, 256);
    assert_eq!(after_accept_failure(MAX_BACKOFF), AcceptStep::Retry { wait: 128, next: 256 });
    assert_eq!(after_accept_failure(MAX_BACKOFF + 1), AcceptStep::GiveUp);
}

#[test]
fn growth_scenario() {
    let mut node = Node::new();
    assert_eq!(node.run("create foo 5 0.01", 0), "Done");
    for w in ["Vega", "Pandora", "Magnetar", "Pulsar", "Nebula", "Collider", "Neutron", "Positron", "Hyperion", "Arcadia"].iter() {
        assert_eq!(node.run(&format!("set foo {}", w), 1), "Done");
    }
    let info = node.run("info foo", 2);
    assert!(info.starts_with("foo capacity: 99 size: 10 space: 12 filters: 1 "), "{}", info);
}

#[test]
fn idle_filter_turns_cold_and_comes_back_on_set() {
    let mut node = Node::new();
    assert_eq!(node.run("create foo 5 0.01", 100), "Done");
    assert_eq!(node.run("set foo vega", 100), "Done");
    // Not yet idle.
    assert!(sweep(&mut node.db, 100 + 3599).is_empty());
    let written = sweep(&mut node.db, 100 + 3600);
    assert_eq!(written.len(), 1);
    assert_eq!(written[0].0, "foo");
    node.disk.insert(written[0].0.clone(), written[0].1.clone());
    assert!(!node.db.is_warm(&"foo".to_string()));
    assert!(node.db.is_cold(&"foo".to_string()));
    assert_eq!(node.run("list", 4000), "");
    // info reads through without taking the filter back.
    assert!(node.run("info foo", 4000).starts_with("foo capacity: 99 size: 1 "));
    assert!(node.db.is_cold(&"foo".to_string()));
    // set takes it back warm.
    assert_eq!(node.run("set foo blazar", 5000), "Done");
    assert!(node.db.is_warm(&"foo".to_string()));
    assert!(!node.db.is_cold(&"foo".to_string()));
    assert_eq!(node.run("check foo vega", 5001), "True");
    assert_eq!(node.run("check foo blazar", 5001), "True");
}

#[test]
fn cold_filter_without_stored_state_reports_the_failure() {
    let mut node = Node::new();
    node.run("create foo 5 0.01", 0);
    let _ = sweep(&mut node.db, 3600);
    assert_eq!(node.run("check foo vega", 3601), "Error: error recovering cold foo: no such file");
    node.disk.insert("foo".to_string(), vec![1, 2, 3]);
    assert_eq!(node.run("check foo vega", 3601), "Error: error recovering cold foo: stored state is corrupt");
    assert!(node.db.is_cold(&"foo".to_string()));
    // create does not overwrite a cold filter; drop forgets it.
    assert_eq!(node.run("create foo", 3601), "Done");
    assert!(!node.db.is_warm(&"foo".to_string()));
    assert_eq!(node.run("drop foo", 3601), "Done");
    assert!(!node.db.is_cold(&"foo".to_string()));
    assert!(node.disk.get("foo").is_none());
}

#[test]
fn drop_clear_persist_and_list() {
    let mut node = Node::new();
    assert_eq!(node.run("create foo 5 0.01", 0), "Done");
    assert_eq!(node.run("create bar 100", 0), "Done");
    assert_eq!(node.run("create foo 7", 0), "Done");
    assert_eq!(node.run("list", 0), "foo 0 0.01\nbar 0 0.05");
    assert_eq!(node.run("set foo vega", 0), "Done");
    assert_eq!(node.run("list", 0), "foo 99 0.01\nbar 0 0.05");
    assert_eq!(node.run("persist foo", 0), "Done");
    assert!(node.disk.contains_key("foo"));
    assert_eq!(node.run("clear foo", 1), "Done");
    assert_eq!(node.run("check foo vega", 2), "False");
    assert_eq!(node.run("drop foo", 3), "Done");
    assert_eq!(node.run("check foo vega", 4), "Error: no scalable filter named foo");
    assert_eq!(node.run("list", 0), "bar 0 0.05");
}

#[test]
fn stored_form_round_trips() {
    let mut f = ScalableBloomFilter::new("délice".to_string(), 5, Fpp { mantissa: 1, scale: 2 }, ScaleFactor::LargeScaleSize, -7);
    for w in ["Vega", "Pandora", "Magnetar"].iter() {
        f.set(w.as_bytes(), &hash, &sizing, 42).unwrap();
    }
    f.check(b"Blazar", &hash, 43);
    let bytes = encode(&f);
    assert_eq!(&bytes[0..4], &[0x52, 0x42, 0x4c, 1]);
    let g = decode(&bytes).unwrap();
    assert_eq!(encode(&g), bytes);
    assert_eq!(g.name(), "délice");
    assert_eq!(g.creation_time(), -7);
    assert_eq!(g.last_access_time(), 43);
    assert_eq!(g.scale_factor(), ScaleFactor::LargeScaleSize);
    assert_eq!((g.size(), g.capacity(), g.miss(), g.filter_count()), (f.size(), f.capacity(), f.miss(), f.filter_count()));
    let mut g = g;
    assert!(g.check(b"Pandora", &hash, 44));
    assert!(decode(&bytes[..bytes.len() - 1]).is_none());
    let mut longer = bytes.clone();
    longer.push(0);
    assert!(decode(&longer).is_none());
}

#[test]
fn dump_stores_every_warm_filter() {
    let mut node = Node::new();
    node.run("create foo 5 0.01", 0);
    node.run("create bar", 0);
    let all = dump(&node.db);
    assert_eq!(all.len(), 2);
    assert_eq!(all[0].0, "foo");
    assert_eq!(all[1].0, "bar");
    let back = decode(&all[1].1).unwrap();
    assert_eq!(back.initial_capacity(), 50000);
    let mut fresh = FilterDatabase::new();
    assert!(fresh.insert_loaded(back));
    assert!(fresh.is_warm(&"bar".to_string()));
}

#[test]
fn large_filter_takes_a_key() {
    let mut node = Node::new();
    assert_eq!(node.run("create big 30000000 0.01", 0), "Done");
    assert_eq!(node.run("set big vega", 1), "Done");
    assert_eq!(node.run("check big vega", 2), "True");
    assert!(node.run("info big", 3).starts_with("big capacity: 588261150 "));
}

#[test]
fn stored_bitmap_is_packed() {
    let mut f = ScalableBloomFilter::new("p".to_string(), 5, Fpp { mantissa: 1, scale: 2 }, ScaleFactor::SmallScaleSize, 0);
    f.set(b"Vega", &hash, &sizing, 1).unwrap();
    // Header 4 + name length 8 + name 1 + fields 45, then one stage:
    // 36 bytes of counters and 99 bits in 13 bytes.
    assert_eq!(encode(&f).len(), 4 + 8 + 1 + 45 + 36 + 13);
}
