use vstd::prelude::*;
use vstd::arithmetic::div_mod::lemma_multiply_divide_lt;

verus! {

/// What a rasterised glyph is cached under.
#[derive(Clone, Copy, Debug, PartialEq, Eq, Structural)]
pub struct GlyphKey {
    pub font: u32,
    pub glyph: u32,
    pub size: u32,
    /// The horizontal sub-pixel offset, quantised by [`subpixel_bucket`].
    pub bucket: u32,
}

/// One cached glyph: the atlas region that holds its bitmap, and when it was
/// last asked for.
#[derive(Clone, Copy, Debug, PartialEq, Eq, Structural)]
pub struct CacheEntry {
    pub key: GlyphKey,
    pub region: u64,
    pub last_used: u64,
}

/// The region cached under `key`, if any.
pub open spec fn region_of(entries: Seq<CacheEntry>, key: GlyphKey) -> Option<u64>
    decreases entries.len(),
{
    if entries.len() == 0 {
        None
    } else if entries.last().key == key {
        Some(entries.last().region)
    } else {
        region_of(entries.drop_last(), key)
    }
}

/// No key is cached twice.
pub open spec fn keys_unique(entries: Seq<CacheEntry>) -> bool {
    forall|i: int, j: int|
        0 <= i < entries.len() && 0 <= j < entries.len() && i != j ==> (#[trigger] entries[i]).key
            != (#[trigger] entries[j]).key
}

/// The bucket of a pen position `x`, given in `units` per pixel: the fraction of
/// a pixel past `x`'s pixel, quantised into `buckets` equal steps.
pub open spec fn subpixel_bucket_spec(x: int, units: int, buckets: int) -> int {
    (x % units) * buckets / units
}

/// The bucket of a pen position `x`, given in `units` per pixel: the fraction of
/// a pixel past `x`'s pixel, quantised into `buckets` equal steps. Positions a
/// whole number of pixels apart share a bucket.
pub fn subpixel_bucket(x: u64, units: u32, buckets: u32) -> (b: u32)
    requires
        units > 0,
    ensures
        b == subpixel_bucket_spec(x as int, units as int, buckets as int),
        buckets > 0 ==> b < buckets,
{
    let rr = x % (units as u64);
    let bk = buckets as u64;
    let un = units as u64;
    assert(rr * bk <= 0xffff_ffff * 0xffff_ffff) by (nonlinear_arith)
        requires rr < 0xffff_ffff, bk <= 0xffff_ffff;
    let q = rr * bk / un;
    proof {
        if buckets > 0 {
            assert(rr * bk < un * bk) by (nonlinear_arith)
                requires rr < un, bk > 0;
            lemma_multiply_divide_lt((rr * bk) as int, un as int, bk as int);
        } else {
            assert(rr * bk == 0) by (nonlinear_arith)
                requires bk == 0;
        }
    }
    q as u32
}

proof fn lemma_region_of_in(entries: Seq<CacheEntry>, key: GlyphKey)
    ensures
        region_of(entries, key) is Some <==> exists|i: int|
            0 <= i < entries.len() && (#[trigger] entries[i]).key == key,
        region_of(entries, key) matches Some(r) ==> exists|i: int|
            0 <= i < entries.len() && (#[trigger] entries[i]).key == key && entries[i].region == r,
    decreases entries.len(),
{
    if entries.len() > 0 {
        let rest = entries.drop_last();
        lemma_region_of_in(rest, key);
        if entries.last().key != key {
            if exists|i: int| 0 <= i < entries.len() && (#[trigger] entries[i]).key == key {
                let i = choose|i: int| 0 <= i < entries.len() && (#[trigger] entries[i]).key == key;
                assert(rest[i] == entries[i]);
            }
            if region_of(rest, key) is Some {
                let i = choose|i: int|
                    0 <= i < rest.len() && (#[trigger] rest[i]).key == key && rest[i].region
                        == region_of(rest, key)->0;
                assert(entries[i] == rest[i]);
            }
        } else {
            assert(entries[entries.len() - 1].key == key);
        }
    }
}

proof fn lemma_region_of_at(entries: Seq<CacheEntry>, i: int)
    requires
        keys_unique(entries),
        0 <= i < entries.len(),
    ensures
        region_of(entries, entries[i].key) == Some(entries[i].region),
    decreases entries.len(),
{
    if i < entries.len() - 1 {
        let rest = entries.drop_last();
        assert(entries[entries.len() - 1].key != entries[i].key);
        assert(rest[i] == entries[i]);
        assert(keys_unique(rest)) by {
            assert forall|a: int, b: int|
                0 <= a < rest.len() && 0 <= b < rest.len() && a != b implies (#[trigger] rest[a]).key
                != (#[trigger] rest[b]).key by {
                assert(rest[a] == entries[a]);
                assert(rest[b] == entries[b]);
            }
        }
        lemma_region_of_at(rest, i);
    }
}

proof fn lemma_region_of_unique_keys(e1: Seq<CacheEntry>, e2: Seq<CacheEntry>, key: GlyphKey)
    requires
        keys_unique(e1),
        keys_unique(e2),
        forall|i: int|
            0 <= i < e1.len() ==> exists|j: int|
                0 <= j < e2.len() && #[trigger] e1[i].key == (#[trigger] e2[j]).key && e1[i].region
                    == e2[j].region,
        forall|j: int|
            0 <= j < e2.len() ==> exists|i: int|
                0 <= i < e1.len() && #[trigger] e1[i].key == (#[trigger] e2[j]).key,
    ensures
        region_of(e1, key) == region_of(e2, key),
{
    lemma_region_of_in(e1, key);
    lemma_region_of_in(e2, key);
    if region_of(e1, key) is Some {
        let i = choose|i: int| 0 <= i < e1.len() && (#[trigger] e1[i]).key == key && e1[i].region == region_of(e1, key)->0;
        let j = choose|j: int|
            0 <= j < e2.len() && #[trigger] e1[i].key == (#[trigger] e2[j]).key && e1[i].region == e2[j].region;
        lemma_region_of_at(e2, j);
    } else if region_of(e2, key) is Some {
        let j = choose|j: int| 0 <= j < e2.len() && (#[trigger] e2[j]).key == key;
        let i = choose|i: int| 0 <= i < e1.len() && #[trigger] e1[i].key == (#[trigger] e2[j]).key;
        assert(e1[i].key == key);
    }
}

/// Rasterised glyphs, memoised by font, glyph, size and sub-pixel bucket, each
/// held in a region of the glyph atlas.
pub struct GlyphCache {
    entries: Vec<CacheEntry>,
    next_region: u64,
    clock: u64,
}

impl GlyphCache {
    /// The cached entries.
    pub closed spec fn entries_spec(&self) -> Seq<CacheEntry> {
        self.entries@
    }

    /// The region that the next rasterised glyph will be given.
    pub closed spec fn next_region_spec(&self) -> u64 {
        self.next_region
    }

    /// The number of lookups so far, which orders entries by recent use.
    pub closed spec fn clock_spec(&self) -> u64 {
        self.clock
    }

    /// Keys are unique, and every cached region was handed out before.
    pub closed spec fn wf(&self) -> bool {
        &&& keys_unique(self.entries@)
        &&& forall|i: int| 0 <= i < self.entries@.len() ==> (#[trigger] self.entries@[i]).region < self.next_region
    }

    /// The region cached under `key`, if any.
    pub open spec fn cached(&self, key: GlyphKey) -> Option<u64> {
        region_of(self.entries_spec(), key)
    }

    /// An empty cache.
    pub fn new() -> (c: GlyphCache)
        ensures
            c.wf(),
            c.entries_spec() == Seq::<CacheEntry>::empty(),
            c.next_region_spec() == 0,
    {
        GlyphCache { entries: Vec::new(), next_region: 0, clock: 0 }
    }

    /// The number of cached glyphs.
    pub fn len(&self) -> (n: usize)
        ensures
            n == self.entries_spec().len(),
    {
        self.entries.len()
    }

    /// Forgets every cached glyph, as when the rendering context that holds the
    /// atlas is destroyed or reset.
    pub fn clear(&mut self)
        requires
            old(self).wf(),
        ensures
            final(self).wf(),
            final(self).entries_spec() == Seq::<CacheEntry>::empty(),
            forall|k: GlyphKey| #[trigger] final(self).cached(k) is None,
            final(self).next_region_spec() == old(self).next_region_spec(),
    {
        self.entries.clear();
    }

    /// The region of the glyph under `key`, handing out a new one when it is
    /// not cached yet. The flag says whether the glyph is new and must be
    /// rasterised into its region; a cached glyph is never rasterised again.
    pub fn get_or_insert(&mut self, key: GlyphKey) -> (r: (u64, bool))
        requires
            old(self).wf(),
            old(self).next_region_spec() < u64::MAX,
            old(self).clock_spec() < u64::MAX,
        ensures
            final(self).wf(),
            old(self).cached(key) matches Some(region) ==> r == (region, false),
            old(self).cached(key) is None ==> r == (old(self).next_region_spec(), true),
            final(self).cached(key) == Some(r.0),
            forall|k: GlyphKey| k != key ==> #[trigger] final(self).cached(k) == old(self).cached(k),
            final(self).next_region_spec() == old(self).next_region_spec() + if r.1 {
                1int
            } else {
                0int
            },
            final(self).clock_spec() == old(self).clock_spec() + 1,
    {
        let ghost before = self.entries@;
        self.clock = self.clock + 1;
        let n = self.entries.len();
        let mut i: usize = 0;
        while i < n
            invariant
                n == self.entries@.len(),
                self.entries@ == before,
                before == old(self).entries@,
                keys_unique(before),
                forall|j: int| 0 <= j < before.len() ==> (#[trigger] before[j]).region < self.next_region,
                self.next_region == old(self).next_region,
                self.clock == old(self).clock + 1,
                i <= n,
                forall|j: int| 0 <= j < i ==> (#[trigger] before[j]).key != key,
            decreases n - i,
        {
            let e = self.entries[i];
            if e.key == key {
                let updated = CacheEntry { last_used: self.clock, ..e };
                self.entries.set(i, updated);
                proof {
                    lemma_region_of_at(before, i as int);
                    let after = self.entries@;
                    assert(keys_unique(after)) by {
                        assert forall|a: int, b: int|
                            0 <= a < after.len() && 0 <= b < after.len() && a != b implies (#[trigger] after[a]).key
                            != (#[trigger] after[b]).key by {
                            assert(after[a].key == before[a].key);
                            assert(after[b].key == before[b].key);
                        }
                    }
                    lemma_region_of_at(after, i as int);
                    assert forall|k: GlyphKey| k != key implies #[trigger] region_of(after, k) == region_of(before, k) by {
                        assert forall|a: int| 0 <= a < before.len() implies exists|b: int|
                            0 <= b < after.len() && #[trigger] before[a].key == (#[trigger] after[b]).key
                                && before[a].region == after[b].region by {
                            assert(before[a].key == after[a].key);
                        }
                        assert forall|b: int| 0 <= b < after.len() implies exists|a: int|
                            0 <= a < before.len() && #[trigger] before[a].key == (#[trigger] after[b]).key by {
                            assert(before[b].key == after[b].key);
                        }
                        lemma_region_of_unique_keys(before, after, k);
                    }
                }
                return (e.region, false);
            }
            i = i + 1;
        }
        proof {
            lemma_region_of_in(before, key);
        }
        let region = self.next_region;
        self.entries.push(CacheEntry { key, region, last_used: self.clock });
        self.next_region = self.next_region + 1;
        proof {
            let after = self.entries@;
            assert(after.drop_last() =~= before);
            assert forall|a: int, b: int|
                0 <= a < after.len() && 0 <= b < after.len() && a != b implies (#[trigger] after[a]).key
                != (#[trigger] after[b]).key by {
                if a < before.len() {
                    assert(after[a] == before[a]);
                }
                if b < before.len() {
                    assert(after[b] == before[b]);
                }
            }
            assert forall|j: int| 0 <= j < after.len() implies (#[trigger] after[j]).region < self.next_region by {
                if j < before.len() {
                    assert(after[j] == before[j]);
                }
            }
        }
        (region, true)
    }

    /// Drops the glyph that was asked for least recently, if any, and returns
    /// its key.
    pub fn evict_least_recent(&mut self) -> (r: Option<GlyphKey>)
        requires
            old(self).wf(),
        ensures
            final(self).wf(),
            old(self).entries_spec().len() == 0 <==> r is None,
            r matches Some(k) ==> {
                &&& old(self).cached(k) is Some
                &&& final(self).cached(k) is None
                &&& forall|other: GlyphKey| other != k ==> #[trigger] final(self).cached(other) == old(self).cached(other)
                &&& forall|i: int|
                    0 <= i < old(self).entries_spec().len() && (#[trigger] old(self).entries_spec()[i]).key == k
                        ==> forall|j: int|
                        0 <= j < old(self).entries_spec().len() ==> old(self).entries_spec()[i].last_used
                            <= (#[trigger] old(self).entries_spec()[j]).last_used
            },
            final(self).next_region_spec() == old(self).next_region_spec(),
            final(self).entries_spec().len() == old(self).entries_spec().len() - if r is Some {
                1int
            } else {
                0int
            },
    {
        let n = self.entries.len();
        if n == 0 {
            return None;
        }
        let ghost before = self.entries@;
        let mut best: usize = 0;
        let mut i: usize = 1;
        while i < n
            invariant
                n == self.entries@.len(),
                self.entries@ == before,
                1 <= i <= n,
                best < i,
                forall|j: int| 0 <= j < i ==> before[best as int].last_used <= (#[trigger] before[j]).last_used,
            decreases n - i,
        {
            if self.entries[i].last_used < self.entries[best].last_used {
                best = i;
            }
            i = i + 1;
        }
        let victim = self.entries.remove(best);
        proof {
            let after = self.entries@;
            lemma_region_of_at(before, best as int);
            assert(after =~= before.remove(best as int));
            assert forall|a: int, b: int|
                0 <= a < after.len() && 0 <= b < after.len() && a != b implies (#[trigger] after[a]).key
                != (#[trigger] after[b]).key by {
                let a0 = if a < best { a } else { a + 1 };
                let b0 = if b < best { b } else { b + 1 };
                assert(after[a] == before[a0]);
                assert(after[b] == before[b0]);
            }
            assert forall|j: int| 0 <= j < after.len() implies (#[trigger] after[j]).region < self.next_region by {
                let j0 = if j < best { j } else { j + 1 };
                assert(after[j] == before[j0]);
            }
            lemma_region_of_in(after, victim.key);
            if region_of(after, victim.key) is Some {
                let j = choose|j: int| 0 <= j < after.len() && (#[trigger] after[j]).key == victim.key;
                let j0 = if j < best { j } else { j + 1 };
                assert(after[j] == before[j0]);
            }
            assert forall|k: GlyphKey| k != victim.key implies #[trigger] region_of(after, k) == region_of(before, k) by {
                lemma_region_of_in(before, k);
                lemma_region_of_in(after, k);
                if region_of(before, k) is Some {
                    let a = choose|a: int| 0 <= a < before.len() && (#[trigger] before[a]).key == k && before[a].region == region_of(before, k)->0;
                    let a1 = if a < best { a } else { a - 1 };
                    assert(a != best);
                    assert(after[a1] == before[a]);
                    lemma_region_of_at(after, a1);
                } else if region_of(after, k) is Some {
                    let j = choose|j: int| 0 <= j < after.len() && (#[trigger] after[j]).key == k;
                    let j0 = if j < best { j } else { j + 1 };
                    assert(after[j] == before[j0]);
                }
            }
            assert forall|a: int|
                0 <= a < before.len() && (#[trigger] before[a]).key == victim.key implies forall|j: int|
                    0 <= j < before.len() ==> before[a].last_used <= (#[trigger] before[j]).last_used by {
                if a != best {
                    assert(before[a].key != before[best as int].key);
                }
            }
        }
        Some(victim.key)
    }
}

} // verus!
