//! Tests of the bounded render cache: capacity, size budget, recency, and
//! the hit and miss counters.

use obsidian_embed::cache::MAX_CACHE_ENTRIES;
use obsidian_embed::cache::MAX_CACHE_SIZE_BYTES;
use obsidian_embed::cache::RenderCache;

#[test]
fn cache_lru_evicts_oldest_when_limit_reached() {
    let mut cache = RenderCache::default();
    let mtime: u64 = 0;

    for i in 0..=MAX_CACHE_ENTRIES {
        let path = format!("/file{}.md", i).into_bytes();
        let html = format!("<h1>File {}</h1>", i).into_bytes();
        cache.insert(path, mtime, html);
    }

    let (count, _, _, _) = cache.get_stats();
    assert!(count <= MAX_CACHE_ENTRIES, "cache should not exceed max entries");
}

#[test]
fn cache_lru_evicts_when_size_limit_reached() {
    let mut cache = RenderCache::default();
    let mtime: u64 = 0;

    let large_html = "x".repeat(1024 * 1024).into_bytes();
    for i in 0..60 {
        let path = format!("/large{}.md", i).into_bytes();
        cache.insert(path, mtime, large_html.clone());
    }

    let (_, size_bytes, _, _) = cache.get_stats();
    assert!(size_bytes <= MAX_CACHE_SIZE_BYTES, "cache size should not exceed limit");
}

#[test]
fn cache_tracks_hits_and_misses() {
    let mut cache = RenderCache::default();
    let path = b"/test.md".to_vec();
    let mtime: u64 = 0;

    let result = cache.get(&path, mtime);
    assert!(result.is_none());

    cache.insert(path.clone(), mtime, b"<h1>Test</h1>".to_vec());

    let result = cache.get(&path, mtime);
    assert!(result.is_some());

    let (_, _, hits, misses) = cache.get_stats();
    assert_eq!(hits, 1);
    assert_eq!(misses, 1);
}

#[test]
fn cache_updates_access_order_on_get() {
    let mut cache = RenderCache::default();
    let mtime: u64 = 0;

    let path1 = b"/file1.md".to_vec();
    let path2 = b"/file2.md".to_vec();

    cache.insert(path1.clone(), mtime, b"<h1>1</h1>".to_vec());
    cache.insert(path2.clone(), mtime, b"<h1>2</h1>".to_vec());

    cache.get(&path1, mtime);

    for i in 3..=MAX_CACHE_ENTRIES + 1 {
        let path = format!("/file{}.md", i).into_bytes();
        cache.insert(path, mtime, format!("<h1>{}</h1>", i).into_bytes());
    }

    let result = cache.get(&path1, mtime);
    assert!(result.is_some(), "most recently accessed entry should remain");
}

#[test]
fn cache_clear_resets_all_stats() {
    let mut cache = RenderCache::default();
    let mtime: u64 = 0;

    cache.insert(b"/test.md".to_vec(), mtime, b"<h1>Test</h1>".to_vec());
    cache.get(&b"/test.md".to_vec(), mtime);

    cache.clear();

    let (count, size, hits, misses) = cache.get_stats();
    assert_eq!(count, 0);
    assert_eq!(size, 0);
    assert_eq!(hits, 0);
    assert_eq!(misses, 0);
}

#[test]
fn cache_stale_mtime_is_a_miss() {
    let mut cache = RenderCache::default();
    cache.insert(b"/a.md".to_vec(), 7, b"<p>old</p>".to_vec());
    assert!(cache.get(&b"/a.md".to_vec(), 8).is_none(), "mtime drift must be a miss");
    let (_, _, hits, misses) = cache.get_stats();
    assert_eq!(hits, 0);
    assert_eq!(misses, 1);
}

#[test]
fn cache_oversized_single_entry_admitted() {
    let mut cache = RenderCache::default();
    let huge = vec![b'y'; MAX_CACHE_SIZE_BYTES + 1];
    cache.insert(b"/big.md".to_vec(), 0, huge.clone());
    let (count, size, _, _) = cache.get_stats();
    assert_eq!(count, 1, "an oversized entry is still admitted into an empty cache");
    assert_eq!(size, MAX_CACHE_SIZE_BYTES + 1);
    assert_eq!(cache.get(&b"/big.md".to_vec(), 0), Some(huge));
}

#[test]
fn cache_replaces_entry_under_same_path() {
    let mut cache = RenderCache::default();
    cache.insert(b"/a.md".to_vec(), 1, b"<p>one</p>".to_vec());
    cache.insert(b"/a.md".to_vec(), 2, b"<p>two</p>".to_vec());
    let (count, size, _, _) = cache.get_stats();
    assert_eq!(count, 1);
    assert_eq!(size, b"<p>two</p>".len());
    assert!(cache.get(&b"/a.md".to_vec(), 1).is_none());
    assert_eq!(cache.get(&b"/a.md".to_vec(), 2), Some(b"<p>two</p>".to_vec()));
}
