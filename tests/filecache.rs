use resserve::filecache::{evicts, FileCache, FsChange};

fn bytes(n: usize, b: u8) -> Vec<u8> {
    vec![b; n]
}

#[test]
fn new_cache_is_empty() {
    let c = FileCache::new(Some(10));
    assert_eq!(c.cached_size(), 0);
    assert!(c.get("a").is_none());
}

#[test]
fn insert_then_get_shares_buffer() {
    let mut c = FileCache::new(None);
    let e = c.insert("a", vec![1, 2, 3]).ok().unwrap();
    assert_eq!(e.len(), 3);
    assert_eq!(c.cached_size(), 3);
    let g = c.get("a").unwrap();
    assert_eq!(g.bytes(), &[1, 2, 3]);
    assert_eq!(e.share().bytes(), &[1, 2, 3]);
}

#[test]
fn full_cache_is_left_unchanged() {
    let mut c = FileCache::new(Some(150));
    assert!(c.insert("a", bytes(100, 1)).is_ok());
    let back = c.insert("b", bytes(100, 2)).err().unwrap();
    assert_eq!(back.len(), 100);
    assert_eq!(c.cached_size(), 100);
    assert!(c.get("b").is_none());
    assert_eq!(c.get("a").unwrap().len(), 100);
}

#[test]
fn make_room_reports_fit_without_inserting() {
    let mut c = FileCache::new(Some(150));
    assert!(c.make_room("a", 100));
    assert_eq!(c.cached_size(), 0);
    assert!(c.insert("a", bytes(100, 1)).is_ok());
    assert!(!c.make_room("b", 51));
    assert!(c.make_room("b", 50));
    assert_eq!(c.cached_size(), 100);
    // a stale entry of the same path is dropped first
    assert!(c.make_room("a", 150));
    assert_eq!(c.cached_size(), 0);
    assert!(c.get("a").is_none());
}

#[test]
fn same_path_filled_twice_counts_once() {
    let mut c = FileCache::new(Some(150));
    assert!(c.insert("a", bytes(100, 1)).is_ok());
    assert!(c.insert("a", bytes(100, 2)).is_ok());
    assert_eq!(c.cached_size(), 100);
    assert_eq!(c.get("a").unwrap().bytes()[0], 2);
}

#[test]
fn remove_absent_is_noop() {
    let mut c = FileCache::new(Some(50));
    assert!(c.insert("a", bytes(10, 0)).is_ok());
    assert!(c.remove("zzz").is_none());
    assert_eq!(c.cached_size(), 10);
    assert!(c.get("a").is_some());
}

#[test]
fn remove_present_returns_entry_and_lowers_total() {
    let mut c = FileCache::new(None);
    assert!(c.insert("a", bytes(10, 7)).is_ok());
    assert!(c.insert("b", bytes(5, 8)).is_ok());
    let e = c.remove("a").unwrap();
    assert_eq!(e.len(), 10);
    assert_eq!(e.bytes()[0], 7);
    assert_eq!(c.cached_size(), 5);
    assert!(c.get("a").is_none());
    assert!(c.get("b").is_some());
}

#[test]
fn removed_entry_stays_readable() {
    let mut c = FileCache::new(None);
    let held = c.insert("a", vec![9, 9]).ok().unwrap();
    let _ = c.remove("a");
    assert_eq!(held.bytes(), &[9, 9]);
}

#[test]
fn zero_byte_file_is_an_entry() {
    let mut c = FileCache::new(Some(0));
    assert!(c.insert("empty", Vec::new()).is_ok());
    assert_eq!(c.cached_size(), 0);
    assert_eq!(c.get("empty").unwrap().len(), 0);
    assert!(c.insert("one", vec![1]).is_err());
}

#[test]
fn file_larger_than_ceiling_is_never_cached() {
    let mut c = FileCache::new(Some(10));
    for _ in 0..3 {
        assert!(c.insert("big", bytes(11, 0)).is_err());
        assert!(c.get("big").is_none());
        assert_eq!(c.cached_size(), 0);
    }
}

#[test]
fn total_tracks_sum_over_operations() {
    let mut c = FileCache::new(Some(1000));
    let mut expected: Vec<(String, usize)> = Vec::new();
    let ops: [(&str, Option<usize>); 9] = [
        ("a", Some(100)),
        ("b", Some(200)),
        ("a", Some(50)),
        ("c", None),
        ("b", None),
        ("d", Some(700)),
        ("e", Some(300)),
        ("a", None),
        ("e", Some(250)),
    ];
    for (p, op) in ops.iter() {
        match op {
            Some(n) => {
                let ok = c.insert(p, bytes(*n, 0)).is_ok();
                expected.retain(|(q, _)| q != p);
                if ok {
                    expected.push((p.to_string(), *n));
                }
            }
            None => {
                let _ = c.remove(p);
                expected.retain(|(q, _)| q != p);
            }
        }
        let sum: usize = expected.iter().map(|(_, n)| *n).sum();
        assert_eq!(c.cached_size(), sum);
        assert!(c.cached_size() <= 1000);
    }
}

#[test]
fn ceiling_scenario_end_to_end() {
    let mut c = FileCache::new(Some(150));
    // A: 100 bytes, cached
    assert!(c.get("res/A").is_none());
    assert!(c.make_room("res/A", 100));
    assert!(c.insert("res/A", bytes(100, b'a')).is_ok());
    assert_eq!(c.cached_size(), 100);
    // B: 100 bytes, does not fit; served uncached
    assert!(c.get("res/B").is_none());
    assert!(!c.make_room("res/B", 100));
    assert_eq!(c.cached_size(), 100);
    assert!(c.get("res/B").is_none());
    // A changes on disk: the watcher removes it
    assert_eq!(c.remove("res/A").unwrap().len(), 100);
    assert_eq!(c.cached_size(), 0);
    // the next fetch of A reads it again and caches it
    assert!(c.get("res/A").is_none());
    assert!(c.make_room("res/A", 100));
    assert!(c.insert("res/A", bytes(100, b'A')).is_ok());
    assert_eq!(c.cached_size(), 100);
    assert_eq!(c.get("res/A").unwrap().bytes()[0], b'A');
}

#[test]
fn only_modify_and_remove_evict() {
    assert!(evicts(FsChange::Modify));
    assert!(evicts(FsChange::Remove));
    assert!(!evicts(FsChange::Create));
    assert!(!evicts(FsChange::Access));
    assert!(!evicts(FsChange::Other));
}
