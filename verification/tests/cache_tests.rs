use dns_core::cache::ResolutionCache;
use dns_core::codec::{ClassCode, ResourceRecord, ResourceRecordType};

fn record(rdata: Vec<u8>) -> ResourceRecord {
    let len = rdata.len() as u16;
    ResourceRecord {
        name: vec![b"example".to_vec(), b"com".to_vec()],
        rr_type: ResourceRecordType::A,
        class: ClassCode::IN,
        ttl: 60,
        rd_length: len,
        rdata,
    }
}

#[test]
fn entry_expires_after_its_ttl() {
    let mut cache = ResolutionCache::new(30, 8);
    let t0: u64 = 1000;
    cache.put(b"example.com".to_vec(), record(vec![1, 2, 3, 4]), t0, Some(5));

    // Present strictly before expiry.
    let hit = cache.get(&b"example.com".to_vec(), t0 + 4);
    assert!(hit.is_some());
    assert_eq!(hit.unwrap().rdata, vec![1, 2, 3, 4]);

    // Absent at and past expiry; the lookup removes it.
    let miss = cache.get(&b"example.com".to_vec(), t0 + 6);
    assert!(miss.is_none());
    assert_eq!(cache.len(), 0);
}

#[test]
fn entry_expires_exactly_at_ttl() {
    let mut cache = ResolutionCache::new(30, 8);
    cache.put(b"a.com".to_vec(), record(vec![1]), 100, Some(5));
    assert!(cache.get(&b"a.com".to_vec(), 105).is_none());
}

#[test]
fn default_ttl_applies_without_override() {
    let mut cache = ResolutionCache::new(10, 8);
    cache.put(b"a.com".to_vec(), record(vec![1]), 0, None);
    assert!(cache.get(&b"a.com".to_vec(), 9).is_some());
    assert!(cache.get(&b"a.com".to_vec(), 10).is_none());
}

#[test]
fn put_overwrites_existing_key() {
    let mut cache = ResolutionCache::new(30, 8);
    cache.put(b"a.com".to_vec(), record(vec![1]), 0, Some(100));
    cache.put(b"a.com".to_vec(), record(vec![2]), 1, Some(100));
    assert_eq!(cache.len(), 1);
    let hit = cache.get(&b"a.com".to_vec(), 2).unwrap();
    assert_eq!(hit.rdata, vec![2]);
}

#[test]
fn eviction_removes_expired_first() {
    let mut cache = ResolutionCache::new(100, 2);
    // An entry that will be expired by t = 50, and a fresh one.
    cache.put(b"old.com".to_vec(), record(vec![1]), 0, Some(10));
    cache.put(b"fresh.com".to_vec(), record(vec![2]), 40, Some(100));
    assert_eq!(cache.len(), 2);

    // The third insertion overflows the table; the expired entry leaves,
    // the fresh one stays.
    cache.put(b"new.com".to_vec(), record(vec![3]), 50, Some(100));
    assert_eq!(cache.len(), 2);
    assert!(cache.get(&b"old.com".to_vec(), 51).is_none());
    assert!(cache.get(&b"fresh.com".to_vec(), 51).is_some());
    assert!(cache.get(&b"new.com".to_vec(), 51).is_some());
}

#[test]
fn eviction_removes_oldest_survivor() {
    let mut cache = ResolutionCache::new(100, 2);
    // All entries stay fresh; capacity forces the oldest out.
    cache.put(b"first.com".to_vec(), record(vec![1]), 10, Some(1000));
    cache.put(b"second.com".to_vec(), record(vec![2]), 20, Some(1000));
    cache.put(b"third.com".to_vec(), record(vec![3]), 30, Some(1000));
    assert_eq!(cache.len(), 2);
    assert!(cache.get(&b"first.com".to_vec(), 31).is_none());
    assert!(cache.get(&b"second.com".to_vec(), 31).is_some());
    assert!(cache.get(&b"third.com".to_vec(), 31).is_some());
}

#[test]
fn eviction_ties_break_by_ascending_key() {
    let mut cache = ResolutionCache::new(100, 2);
    // Two survivors share the insertion time; the smaller key leaves.
    cache.put(b"bbb.com".to_vec(), record(vec![1]), 10, Some(1000));
    cache.put(b"aaa.com".to_vec(), record(vec![2]), 10, Some(1000));
    cache.put(b"ccc.com".to_vec(), record(vec![3]), 20, Some(1000));
    assert_eq!(cache.len(), 2);
    assert!(cache.get(&b"aaa.com".to_vec(), 21).is_none());
    assert!(cache.get(&b"bbb.com".to_vec(), 21).is_some());
    assert!(cache.get(&b"ccc.com".to_vec(), 21).is_some());
}

#[test]
fn missing_key_is_a_miss() {
    let mut cache = ResolutionCache::new(30, 8);
    assert!(cache.get(&b"nowhere.example".to_vec(), 0).is_none());
}
