use skiplist_rs::{
    AllocationRecorder, Bound, BudgetLimiter, ByteWiseComparator, FixedLengthSuffixComparator,
    KeyComparator, KeyOrd, MemoryLimiter, ReadableSize, RecorderLimiter, Skiplist,
};

#[derive(Clone, Default)]
struct DummyLimiter {}

impl AllocationRecorder for DummyLimiter {
    fn record_alloc(&mut self, _: usize, _: usize) {}

    fn record_free(&mut self, _: usize, _: usize) {}
}

impl MemoryLimiter for DummyLimiter {
    fn spec_usage(&self) -> usize {
        0
    }

    fn acquire(&mut self, _: usize) -> bool {
        true
    }

    fn mem_usage(&self) -> usize {
        0
    }

    fn reclaim(&mut self, _: usize) {}
}

#[test]
fn concurrent_put_and_remove() {
    let mut sl = Skiplist::new(ByteWiseComparator {}, DummyLimiter {});
    let n = 100;
    for i in (0..n).step_by(2) {
        let k = format!("k{:04}", i);
        let v = format!("v{:04}", i);
        sl.put(k.as_bytes(), v.as_bytes());
    }
    // One interleaved schedule of worker A (puts the odd keys) and
    // worker B (removes the even keys).
    for i in 0..n {
        let k = format!("k{:04}", i);
        if i % 2 == 1 {
            let v = format!("v{:04}", i);
            sl.put(k.as_bytes(), v.as_bytes());
        } else {
            sl.remove(k.as_bytes());
        }
    }

    for i in (1..n).step_by(2) {
        let k = format!("k{:04}", i);
        let v = format!("v{:04}", i);
        assert_eq!(sl.get(k.as_bytes()).unwrap(), v.as_bytes());
    }
    for i in (0..n).step_by(2) {
        let k = format!("k{:04}", i);
        assert!(sl.get(k.as_bytes()).is_none());
    }
}

#[test]
fn ordering_in_order_traversal() {
    let mut sl = Skiplist::new(ByteWiseComparator {}, DummyLimiter {});
    let keys = ["pear", "apple", "zebra", "mango", "fig", "cherry", "kiwi"];
    for k in keys.iter() {
        let v = format!("v-{}", k);
        sl.put(k.as_bytes(), v.as_bytes());
    }
    let mut it = sl.iter();
    it.seek_to_first(&sl);
    let mut seen: Vec<Vec<u8>> = Vec::new();
    while it.valid(&sl) {
        seen.push(it.key(&sl));
        it.next(&sl);
    }
    let mut expected: Vec<Vec<u8>> = keys.iter().map(|k| k.as_bytes().to_vec()).collect();
    expected.sort();
    assert_eq!(seen, expected);
    for w in seen.windows(2) {
        assert!(w[0] < w[1]);
    }
}

#[test]
fn read_your_write() {
    let mut sl = Skiplist::new(ByteWiseComparator {}, DummyLimiter {});
    assert!(sl.put(b"alpha", b"one"));
    assert_eq!(sl.get(b"alpha").unwrap(), b"one".as_slice());
    assert!(sl.put(b"alpha", b"two"));
    assert_eq!(sl.get(b"alpha").unwrap(), b"two".as_slice());
    assert!(sl.remove(b"alpha"));
    assert!(sl.get(b"alpha").is_none());
}

#[test]
fn tombstone_hides_from_get_and_iteration() {
    let mut sl = Skiplist::new(ByteWiseComparator {}, DummyLimiter {});
    sl.put(b"a", b"1");
    sl.put(b"b", b"2");
    sl.put(b"c", b"3");
    assert!(sl.remove(b"b"));
    assert!(sl.get(b"b").is_none());
    let mut it = sl.iter();
    it.seek_to_first(&sl);
    let mut seen: Vec<Vec<u8>> = Vec::new();
    while it.valid(&sl) {
        seen.push(it.key(&sl));
        it.next(&sl);
    }
    assert_eq!(seen, vec![b"a".to_vec(), b"c".to_vec()]);
    // Re-inserting a removed key brings it back with the new value.
    sl.put(b"b", b"22");
    assert_eq!(sl.get(b"b").unwrap(), b"22".as_slice());
}

#[test]
fn idempotent_removal() {
    let mut sl = Skiplist::new(ByteWiseComparator {}, DummyLimiter {});
    sl.put(b"k1", b"v1");
    assert!(!sl.remove(b"missing"));
    assert!(sl.remove(b"k1"));
    assert!(!sl.remove(b"k1"));
    assert!(sl.get(b"k1").is_none());
    sl.put(b"k2", b"v2");
    assert_eq!(sl.get(b"k2").unwrap(), b"v2".as_slice());
}

#[test]
fn empty_list_behaviour() {
    let mut sl = Skiplist::new(ByteWiseComparator {}, DummyLimiter {});
    assert!(sl.get(b"nothing").is_none());
    assert!(!sl.remove(b"nothing"));
    let mut it = sl.iter();
    it.seek_to_first(&sl);
    assert!(!it.valid(&sl));
    it.seek(&sl, b"a");
    assert!(!it.valid(&sl));
}

#[test]
fn seek_lands_on_first_key_at_or_after() {
    let mut sl = Skiplist::new(ByteWiseComparator {}, DummyLimiter {});
    for k in ["b", "d", "f"].iter() {
        sl.put(k.as_bytes(), b"x");
    }
    let mut it = sl.iter();
    it.seek(&sl, b"c");
    assert!(it.valid(&sl));
    assert_eq!(it.key(&sl), b"d".to_vec());
    it.seek(&sl, b"d");
    assert_eq!(it.key(&sl), b"d".to_vec());
    it.seek(&sl, b"g");
    assert!(!it.valid(&sl));
}

#[test]
fn memory_accounting_grants_minus_reclaims() {
    let mut limiter = BudgetLimiter::new(1000);
    assert!(limiter.acquire(300));
    assert!(limiter.acquire(200));
    assert_eq!(limiter.mem_usage(), 500);
    limiter.reclaim(150);
    assert_eq!(limiter.mem_usage(), 350);
    assert!(!limiter.acquire(700));
    assert_eq!(limiter.mem_usage(), 350);
    limiter.reclaim(350);
    assert_eq!(limiter.mem_usage(), 0);
}

#[test]
fn denied_acquire_leaves_list_unchanged() {
    // Budget too small for any insertion: every put is denied.
    let mut sl = Skiplist::new(ByteWiseComparator {}, BudgetLimiter::new(10));
    assert!(!sl.put(b"key", b"value"));
    assert!(sl.get(b"key").is_none());
    assert_eq!(sl.mem_usage(), 0);
    let mut it = sl.iter();
    it.seek_to_first(&sl);
    assert!(!it.valid(&sl));
}

#[test]
fn skiplist_accounting_through_budget_limiter() {
    let mut sl = Skiplist::new(ByteWiseComparator {}, BudgetLimiter::new(10_000));
    assert!(sl.put(b"a", b"1"));
    // key (1) + value (1) + node overhead (64)
    assert_eq!(sl.mem_usage(), 66);
    assert!(sl.remove(b"a"));
    // removal reclaims the value bytes
    assert_eq!(sl.mem_usage(), 65);
}

#[test]
fn recorder_limiter_composes() {
    let recorder = DummyLimiter {};
    let inner = BudgetLimiter::new(100);
    let mut rl = RecorderLimiter::new(recorder, inner);
    assert!(rl.acquire(60));
    assert_eq!(rl.mem_usage(), 60);
    assert!(!rl.acquire(60));
    assert_eq!(rl.mem_usage(), 60);
    rl.reclaim(10);
    assert_eq!(rl.mem_usage(), 50);
}

#[test]
fn bytewise_comparator_matches_lexicographic_order() {
    let c = ByteWiseComparator {};
    let pairs: Vec<(&[u8], &[u8])> = vec![
        (b"abc", b"abd"),
        (b"abc", b"abc"),
        (b"ab", b"abc"),
        (b"", b"a"),
        (b"zz", b"za"),
        (b"\x00", b"\xff"),
        (b"same", b"same"),
    ];
    for (a, b) in pairs {
        let expected = match a.cmp(b) {
            std::cmp::Ordering::Less => KeyOrd::Less,
            std::cmp::Ordering::Equal => KeyOrd::Equal,
            std::cmp::Ordering::Greater => KeyOrd::Greater,
        };
        assert_eq!(c.compare(a, b), expected);
    }
}

#[test]
fn fixed_length_suffix_comparator_orders_by_suffix() {
    // Two-byte suffix, equal leading portions.
    let asc = FixedLengthSuffixComparator::new(2, true);
    let desc = FixedLengthSuffixComparator::new(2, false);
    assert_eq!(asc.compare(b"key01", b"key02"), KeyOrd::Less);
    assert_eq!(desc.compare(b"key01", b"key02"), KeyOrd::Greater);
    assert_eq!(asc.compare(b"key02", b"key02"), KeyOrd::Equal);
    assert_eq!(desc.compare(b"key02", b"key02"), KeyOrd::Equal);
    // Leading portions differ: the suffix direction does not matter.
    assert_eq!(asc.compare(b"aaa01", b"bbb00"), KeyOrd::Less);
    assert_eq!(desc.compare(b"aaa01", b"bbb00"), KeyOrd::Less);
}

#[test]
fn height_bound_and_distribution() {
    let mut sl = Skiplist::new(ByteWiseComparator {}, DummyLimiter {});
    let draws = 20_000;
    let mut tall = 0u32;
    for _ in 0..draws {
        let h = sl.random_height();
        assert!(1 <= h && h <= 20);
        if h >= 2 {
            tall += 1;
        }
    }
    // Geometric with success probability 1/4: about a quarter of the
    // draws reach level 2 or higher.
    let frac = tall as f64 / draws as f64;
    assert!(frac > 0.2 && frac < 0.3, "observed fraction {}", frac);
}

#[test]
fn many_insertions_stay_ordered() {
    let mut sl = Skiplist::new(ByteWiseComparator {}, DummyLimiter {});
    // A scattered insertion order.
    let mut keys: Vec<String> = (0..500).map(|i| format!("k{:05}", (i * 263) % 500)).collect();
    for k in keys.iter() {
        sl.put(k.as_bytes(), k.as_bytes());
    }
    keys.sort();
    keys.dedup();
    let mut it = sl.iter();
    it.seek_to_first(&sl);
    let mut count = 0;
    let mut prev: Option<Vec<u8>> = None;
    while it.valid(&sl) {
        let k = it.key(&sl);
        assert_eq!(it.value(&sl), k);
        if let Some(p) = &prev {
            assert!(p < &k);
        }
        prev = Some(k);
        count += 1;
        it.next(&sl);
    }
    assert_eq!(count, keys.len());
}

#[test]
fn readable_size_conversions() {
    assert_eq!(ReadableSize::kb(5).0, 5 * 1024);
    assert_eq!(ReadableSize::mb(3).0, 3 * 1024 * 1024);
    assert_eq!(ReadableSize::gb(2).0, 2 * 1024 * 1024 * 1024);
    assert_eq!(ReadableSize(10 * 1024 * 1024).as_mb(), 10);
    assert_eq!(ReadableSize(10 * 1024 * 1024).as_kb(), 10 * 1024);
    assert_eq!(ReadableSize(1536).as_kb(), 1);
}

#[test]
fn bound_variants() {
    let a: Bound<u32> = Bound::Included(4);
    let b: Bound<u32> = Bound::Excluded(4);
    let c: Bound<u32> = Bound::Unbounded;
    assert_ne!(a, b);
    assert_ne!(a, c);
    assert_eq!(a, Bound::Included(4));
    assert_eq!(c, Bound::<u32>::Unbounded);
}

#[test]
fn fetch_stats_reports_seven_counters() {
    let stats = skiplist_rs::fetch_stats().unwrap().unwrap();
    assert_eq!(stats.len(), 7);
    let labels: Vec<&str> = stats.iter().map(|(l, _)| *l).collect();
    assert_eq!(
        labels,
        vec!["allocated", "active", "metadata", "resident", "mapped", "retained", "fragmentation"]
    );
}
