use lib::cache_manager::{should_cache, CacheManager, CACHE_SIZE};

#[test]
fn caching_threshold() {
    assert!(should_cache(0));
    assert!(should_cache(CACHE_SIZE / 2));
    assert!(!should_cache(CACHE_SIZE / 2 + 1));
}

#[test]
fn stored_contents_are_served_while_unmodified() {
    let mut m = CacheManager::new();
    let path = b"/www/index.html".to_vec();
    assert_eq!(m.lookup(&path, 100), None);
    m.store(path.clone(), b"<html/>".to_vec(), 7, 100);
    assert_eq!(m.modified_time(&path), Some(100));
    assert_eq!(m.lookup(&path, 100), Some(&b"<html/>".to_vec()));
    // The file changed since: the cached copy is not served.
    assert_eq!(m.lookup(&path, 101), None);
    m.store(path.clone(), b"<html>2</html>".to_vec(), 14, 101);
    assert_eq!(m.lookup(&path, 101), Some(&b"<html>2</html>".to_vec()));
    assert_eq!(m.lookup(&path, 100), None);
    assert_eq!(m.modified_time(&b"/other".to_vec()), None);
}
