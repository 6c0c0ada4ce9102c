use cardinal::metadata_cache::MetadataCache;
use cardinal::node::{NodeFileType, NodeMetadata};
use cardinal::slab::Slab;

#[test]
fn reused_slot_does_not_alias_stale_handle() {
    let mut slab: Slab<String> = Slab::new();
    let a = slab.allocate("a".to_string());
    let b = slab.allocate("b".to_string());
    assert!(slab.remove(a));
    assert!(slab.get(a).is_none());
    let c = slab.allocate("c".to_string());
    assert_eq!(c.index, a.index);
    assert_ne!(c, a);
    assert!(slab.get(a).is_none());
    assert_eq!(slab.get(c).map(|s| s.as_str()), Some("c"));
    assert_eq!(slab.get(b).map(|s| s.as_str()), Some("b"));
    assert!(!slab.remove(a));
}

#[test]
fn slab_set_and_indices() {
    let mut slab: Slab<u32> = Slab::new();
    let a = slab.allocate(1);
    let b = slab.allocate(2);
    let c = slab.allocate(3);
    assert!(slab.set(b, 20));
    assert_eq!(slab.get(b), Some(&20));
    assert!(slab.remove(b));
    assert!(!slab.set(b, 30));
    assert!(!slab.contains(b));
    let live = slab.indices();
    assert_eq!(live, vec![a, c]);
}

#[test]
fn metadata_cache_put_get_invalidate() {
    let mut cache = MetadataCache::new();
    let m = NodeMetadata::new(NodeFileType::File, None, Some(5), 42);
    assert_eq!(cache.get(3), None);
    cache.put(3, m);
    assert_eq!(cache.get(3), Some(m));
    assert_eq!(cache.get(0), None);
    let m2 = NodeMetadata::new(NodeFileType::Dir, Some(1), None, 0);
    cache.put(3, m2);
    assert_eq!(cache.get(3), Some(m2));
    cache.invalidate(3);
    assert_eq!(cache.get(3), None);
    cache.invalidate(100);
    assert_eq!(cache.get(100), None);
}
