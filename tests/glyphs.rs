use speedy2d::glyph_cache::{subpixel_bucket, GlyphCache, GlyphKey};

fn key(glyph: u32, bucket: u32) -> GlyphKey {
    GlyphKey { font: 1, glyph, size: 14, bucket }
}

#[test]
fn repeated_requests_share_a_region() {
    let mut cache = GlyphCache::new();
    assert_eq!(cache.get_or_insert(key(65, 0)), (0, true));
    assert_eq!(cache.get_or_insert(key(66, 0)), (1, true));
    for _ in 0..10 {
        assert_eq!(cache.get_or_insert(key(65, 0)), (0, false));
    }
    assert_eq!(cache.get_or_insert(key(65, 1)), (2, true));
    assert_eq!(cache.len(), 3);
}

#[test]
fn clearing_forgets_every_glyph() {
    let mut cache = GlyphCache::new();
    cache.get_or_insert(key(65, 0));
    cache.get_or_insert(key(66, 0));
    cache.clear();
    assert_eq!(cache.len(), 0);
    // A fresh region: the old one belonged to the atlas that went away.
    assert_eq!(cache.get_or_insert(key(65, 0)), (2, true));
}

#[test]
fn least_recent_glyph_is_evicted() {
    let mut cache = GlyphCache::new();
    assert_eq!(cache.evict_least_recent(), None);
    cache.get_or_insert(key(1, 0));
    cache.get_or_insert(key(2, 0));
    cache.get_or_insert(key(3, 0));
    cache.get_or_insert(key(1, 0));
    assert_eq!(cache.evict_least_recent(), Some(key(2, 0)));
    assert_eq!(cache.evict_least_recent(), Some(key(3, 0)));
    assert_eq!(cache.len(), 1);
    assert_eq!(cache.get_or_insert(key(1, 0)), (0, false));
}

#[test]
fn subpixel_buckets_quantise_fractions() {
    assert_eq!(subpixel_bucket(0, 64, 4), 0);
    assert_eq!(subpixel_bucket(15, 64, 4), 0);
    assert_eq!(subpixel_bucket(16, 64, 4), 1);
    assert_eq!(subpixel_bucket(63, 64, 4), 3);
    assert_eq!(subpixel_bucket(64 * 7 + 40, 64, 4), 2);
    assert_eq!(subpixel_bucket(64 * 7 + 40, 64, 64), 40);
}
