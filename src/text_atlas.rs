use crate::custom_glyph::ContentType;
use crate::error::PrepareError;
use crate::glyph::GlyphImageInfo;
use crate::glyph::{rects_disjoint, GlyphDetails, GlyphonCacheKey, GpuCacheStatus, Rect};
use crate::external::{
    cache_entries, cache_entries_newest_first, cache_len, cache_new, cache_peek, cache_pop,
    cache_promote, cache_put, packer_allocate, packer_deallocate, packer_fits, packer_grow,
    packer_live, packer_new, packer_rects, packer_size, GlyphCache,
};
use etagere::{AllocId, BucketedAtlasAllocator};
use vstd::prelude::*;

verus! {

/// A cache entry: a glyph key and what is known of its bitmap.
pub type Entry = (GlyphonCacheKey, GlyphDetails);

/// No key occurs twice among the entries.
pub open spec fn keys_distinct(s: Seq<Entry>) -> bool {
    forall|i: int, j: int| 0 <= i < s.len() && 0 <= j < s.len() && i != j ==> s[i].0 != s[j].0
}

/// Some entry has key `k`.
pub open spec fn has_key(s: Seq<Entry>, k: GlyphonCacheKey) -> bool {
    exists|i: int| 0 <= i < s.len() && (#[trigger] s[i]).0 == k
}

/// The details stored under `k`, if any.
pub open spec fn lookup(s: Seq<Entry>, k: GlyphonCacheKey) -> Option<GlyphDetails> {
    if has_key(s, k) {
        Some(s[choose|i: int| 0 <= i < s.len() && (#[trigger] s[i]).0 == k].1)
    } else {
        None
    }
}

/// A glyph's bitmap lies inside a square texture of side `size`, and it holds a
/// packer allocation exactly when it is in the atlas.
pub open spec fn details_fit(d: GlyphDetails, size: int) -> bool {
    match d.gpu_cache {
        GpuCacheStatus::InAtlas { x, y, .. } => {
            &&& d.atlas_id.is_some()
            &&& x + d.width <= size
            &&& y + d.height <= size
        },
        GpuCacheStatus::SkipRasterization => d.atlas_id.is_none(),
    }
}

/// In a sequence with distinct keys, the entry at `i` is the one found under its key.
pub proof fn lemma_lookup_at(s: Seq<Entry>, i: int)
    requires
        keys_distinct(s),
        0 <= i < s.len(),
    ensures
        has_key(s, s[i].0),
        lookup(s, s[i].0) == Some(s[i].1),
{
    assert(s[i].0 == s[i].0);
    let j = choose|j: int| 0 <= j < s.len() && (#[trigger] s[j]).0 == s[i].0;
    assert(j == i);
}

/// Whatever a key finds is one of the entries.
pub proof fn lemma_lookup_is_entry(s: Seq<Entry>, k: GlyphonCacheKey)
    requires
        keys_distinct(s),
        lookup(s, k) is Some,
    ensures
        exists|i: int| 0 <= i < s.len() && s[i].0 == k && s[i].1 == lookup(s, k).unwrap(),
{
    let i = choose|i: int| 0 <= i < s.len() && (#[trigger] s[i]).0 == k;
    lemma_lookup_at(s, i);
}

/// Moving one entry to the back keeps the keys distinct and what each key finds.
pub proof fn lemma_move_to_back(s: Seq<Entry>, i: int)
    requires
        keys_distinct(s),
        0 <= i < s.len(),
    ensures
        keys_distinct(s.remove(i).push(s[i])),
        forall|k: GlyphonCacheKey| lookup(s.remove(i).push(s[i]), k) == lookup(s, k),
        forall|e: Entry| s.remove(i).push(s[i]).contains(e) <==> s.contains(e),
{
    let t = s.remove(i).push(s[i]);
    let n = s.len();
    // position in `t` of the entry at position `j` of `s`
    let pos = |j: int| if j < i { j } else if j == i { n - 1 } else { j - 1 };
    assert forall|j: int| 0 <= j < n implies t[pos(j)] == s[j] by {}
    assert forall|p: int| 0 <= p < n implies #[trigger] t[p] == s[if p < i { p } else if p == n - 1 { i } else { p + 1 }] by {}
    assert forall|p: int, q: int| 0 <= p < n && 0 <= q < n && p != q implies t[p].0 != t[q].0 by {
        let a = if p < i { p } else if p == n - 1 { i } else { p + 1 };
        let b = if q < i { q } else if q == n - 1 { i } else { q + 1 };
        assert(t[p] == s[a]);
        assert(t[q] == s[b]);
    }
    assert forall|k: GlyphonCacheKey| lookup(t, k) == lookup(s, k) by {
        if has_key(s, k) {
            let j = choose|j: int| 0 <= j < s.len() && (#[trigger] s[j]).0 == k;
            lemma_lookup_at(s, j);
            assert(t[pos(j)] == s[j]);
            lemma_lookup_at(t, pos(j));
        } else if has_key(t, k) {
            let p = choose|p: int| 0 <= p < t.len() && (#[trigger] t[p]).0 == k;
            let a = if p < i { p } else if p == n - 1 { i } else { p + 1 };
            assert(t[p] == s[a]);
        }
    }
    assert forall|e: Entry| t.contains(e) <==> s.contains(e) by {
        if s.contains(e) {
            let j = choose|j: int| 0 <= j < s.len() && s[j] == e;
            assert(t[pos(j)] == s[j]);
        }
        if t.contains(e) {
            let p = choose|p: int| 0 <= p < t.len() && t[p] == e;
            let a = if p < i { p } else if p == n - 1 { i } else { p + 1 };
            assert(t[p] == s[a]);
        }
    }
}

/// Where a glyph's bitmap lies in its plane's texture.
pub open spec fn rect_of(d: GlyphDetails) -> Rect {
    match d.gpu_cache {
        GpuCacheStatus::InAtlas { x, y, .. } => (x as int, y as int, d.width as int, d.height as int),
        GpuCacheStatus::SkipRasterization => (0, 0, 0, 0),
    }
}

/// No two rectangles of the map share a pixel.
pub open spec fn all_disjoint(m: Map<AllocId, Rect>) -> bool {
    forall|p: AllocId, q: AllocId|
        #[trigger] m.contains_key(p) && #[trigger] m.contains_key(q) && p != q ==> rects_disjoint(m[p], m[q])
}

/// A cached glyph may be evicted: it holds an allocation and is not in use.
pub open spec fn evictable(e: Entry, in_use: Set<GlyphonCacheKey>) -> bool {
    e.1.atlas_id is Some && !in_use.contains(e.0)
}

/// What a plane stores: a colour (four bytes per pixel) or a mask (one byte per pixel).
#[derive(Debug, Clone, Copy, PartialEq, Eq, Structural)]
pub enum Kind {
    Mask,
    Color { srgb: bool },
}

impl Kind {
    pub open spec fn spec_num_channels(self) -> nat {
        match self {
            Kind::Mask => 1,
            Kind::Color { .. } => 4,
        }
    }

    /// The number of bytes per pixel of the plane's texture.
    pub fn num_channels(self) -> (r: usize)
        ensures
            r == self.spec_num_channels(),
    {
        match self {
            Kind::Mask => 1,
            Kind::Color { .. } => 4,
        }
    }
}

pub open spec fn min_u32(a: u32, b: u32) -> u32 {
    if a < b {
        a
    } else {
        b
    }
}

/// The largest side a plane may have: the packer rounds a request's height up to a
/// multiple of 64, which must stay within `u16`.
pub const MAX_PLANE_SIZE: u32 = 0xFFC0;

/// The side of a new plane's texture, before any growth.
pub const INITIAL_SIZE: u32 = 256;

/// One atlas plane: a packer over a square texture, and the recency-ordered cache of the
/// glyphs stored in it, with the keys in use by the frame being prepared.
pub struct InnerAtlas {
    kind: Kind,
    packer: BucketedAtlasAllocator,
    size: u32,
    glyph_cache: GlyphCache,
    glyphs_in_use: Vec<GlyphonCacheKey>,
    max_texture_dimension_2d: u32,
}

impl InnerAtlas {
    /// The cached glyphs, least recently used first.
    pub closed spec fn entries(&self) -> Seq<Entry> {
        cache_entries(self.glyph_cache)
    }

    /// The keys marked as in use by the frame being prepared.
    pub closed spec fn in_use(&self) -> Set<GlyphonCacheKey> {
        Set::new(|k: GlyphonCacheKey| self.glyphs_in_use@.contains(k))
    }

    /// What the plane stores.
    pub closed spec fn spec_kind(&self) -> Kind {
        self.kind
    }

    /// The plane's packer.
    pub closed spec fn spec_packer(&self) -> BucketedAtlasAllocator {
        self.packer
    }

    /// The side of the plane's texture.
    pub closed spec fn spec_size(&self) -> int {
        self.size as int
    }

    /// The largest side the texture may grow to.
    pub closed spec fn spec_max_size(&self) -> int {
        self.max_texture_dimension_2d as int
    }

    closed spec fn id_at(&self, i: int) -> Option<AllocId> {
        self.entries()[i].1.atlas_id
    }

    /// Some cached glyph holds allocation `id`.
    pub closed spec fn holds_id(&self, id: AllocId) -> bool {
        exists|i: int| 0 <= i < self.entries().len() && #[trigger] self.id_at(i) == Some(id)
    }

    /// Every live packer allocation belongs to a cached glyph, but for `pending`.
    pub closed spec fn live_held_except(&self, pending: Option<AllocId>) -> bool {
        forall|id: AllocId|
            #[trigger] packer_live(self.packer).contains(id) ==> self.holds_id(id) || pending == Some(
                id,
            )
    }

    /// Whether the packer would accept a `width` by `height` request now.
    pub closed spec fn fits(&self, width: u16, height: u16) -> bool {
        packer_fits(self.packer, width, height)
    }

    /// Well-formedness: the cached glyphs in the atlas and the live packer allocations
    /// correspond one to one, and every bitmap fits the texture.
    pub closed spec fn wf(&self) -> bool {
        self.core_wf() && self.live_held_except(None)
    }

    /// Every cached bitmap fits the texture and holds its own live allocation.
    pub closed spec fn core_wf(&self) -> bool {
        &&& keys_distinct(self.entries())
        &&& forall|i: int|
            0 <= i < self.entries().len() ==> details_fit(
                #[trigger] self.entries()[i].1,
                self.size as int,
            )
        &&& forall|i: int|
            0 <= i < self.entries().len() && (#[trigger] self.id_at(i)).is_some()
                ==> packer_live(self.packer).contains(self.id_at(i).unwrap())
        &&& forall|i: int, j: int|
            0 <= i < self.entries().len() && 0 <= j < self.entries().len() && i != j
                && (#[trigger] self.id_at(i)).is_some() && (#[trigger] self.id_at(j)).is_some()
                ==> self.id_at(i) != self.id_at(j)
        &&& packer_size(self.packer) == self.size
        &&& 0 < self.size <= self.max_texture_dimension_2d <= MAX_PLANE_SIZE
        &&& packer_rects(self.packer).dom() == packer_live(self.packer)
        &&& all_disjoint(packer_rects(self.packer))
        &&& self.glyphs_in_use@.no_duplicates()
        &&& forall|i: int|
            0 <= i < self.entries().len() && (#[trigger] self.id_at(i)).is_some()
                ==> packer_rects(self.packer)[self.id_at(i).unwrap()] == rect_of(self.entries()[i].1)
    }

    /// The rectangle the packer holds for allocation `id`.
    pub closed spec fn allocated_rect(&self, id: AllocId) -> Rect {
        packer_rects(self.packer)[id]
    }

    /// No two glyphs of a well-formed plane share a pixel of its texture.
    pub proof fn lemma_glyphs_do_not_overlap(&self, i: int, j: int)
        requires
            self.wf(),
            0 <= i < self.entries().len(),
            0 <= j < self.entries().len(),
            i != j,
            self.entries()[i].1.gpu_cache is InAtlas,
            self.entries()[j].1.gpu_cache is InAtlas,
        ensures
            rects_disjoint(rect_of(self.entries()[i].1), rect_of(self.entries()[j].1)),
    {
        assert(details_fit(self.entries()[i].1, self.size as int));
        assert(details_fit(self.entries()[j].1, self.size as int));
        assert(self.id_at(i).is_some() && self.id_at(j).is_some());
        let m = packer_rects(self.packer);
        assert(m.contains_key(self.id_at(i).unwrap()) && m.contains_key(self.id_at(j).unwrap()));
    }

    /// Creates an empty plane whose texture starts at `INITIAL_SIZE` pixels a side, or
    /// at the largest size allowed if that is smaller.
    pub fn new(kind: Kind, max_texture_dimension_2d: u32) -> (r: Self)
        requires
            0 < max_texture_dimension_2d <= MAX_PLANE_SIZE,
        ensures
            r.wf(),
            r.spec_kind() == kind,
            r.entries().len() == 0,
            r.in_use() == Set::<GlyphonCacheKey>::empty(),
            r.spec_size() == min_u32(INITIAL_SIZE, max_texture_dimension_2d),
            r.spec_max_size() == max_texture_dimension_2d,
            forall|w: u16, h: u16| 0 < w <= r.spec_size() && 0 < h <= r.spec_size() ==> #[trigger] r.fits(w, h),
    {
        let size = if INITIAL_SIZE < max_texture_dimension_2d {
            INITIAL_SIZE
        } else {
            max_texture_dimension_2d
        };
        let packer = packer_new(size as u16);
        let r = InnerAtlas {
            kind,
            packer,
            size,
            glyph_cache: cache_new(),
            glyphs_in_use: Vec::new(),
            max_texture_dimension_2d,
        };
        assert(r.in_use() =~= Set::<GlyphonCacheKey>::empty());
        r
    }

    /// The side of the plane's texture.
    pub fn size(&self) -> (r: u32)
        ensures
            r == self.spec_size(),
    {
        self.size
    }

    /// What the plane stores.
    pub fn kind(&self) -> (r: Kind)
        ensures
            r == self.spec_kind(),
    {
        self.kind
    }

    /// The number of bytes per pixel of the plane's texture.
    pub fn num_channels(&self) -> (r: usize)
        ensures
            r == self.spec_kind().spec_num_channels(),
    {
        self.kind.num_channels()
    }

    /// Whether `key` is marked as in use by the frame being prepared.
    pub fn is_in_use(&self, key: &GlyphonCacheKey) -> (r: bool)
        ensures
            r == self.in_use().contains(*key),
    {
        let mut i: usize = 0;
        while i < self.glyphs_in_use.len()
            invariant
                i <= self.glyphs_in_use@.len(),
                forall|j: int| 0 <= j < i ==> self.glyphs_in_use@[j] != *key,
            decreases self.glyphs_in_use@.len() - i,
        {
            if self.glyphs_in_use[i] == *key {
                return true;
            }
            i += 1;
        }
        false
    }

    fn mark_in_use(&mut self, key: GlyphonCacheKey)
        ensures
            final(self).in_use() == old(self).in_use().insert(key),
            old(self).glyphs_in_use@.no_duplicates() ==> final(self).glyphs_in_use@.no_duplicates(),
            final(self).glyph_cache == old(self).glyph_cache,
            final(self).packer == old(self).packer,
            final(self).size == old(self).size,
            final(self).max_texture_dimension_2d == old(self).max_texture_dimension_2d,
            final(self).kind == old(self).kind,
    {
        let ghost before = self.glyphs_in_use@;
        if !self.is_in_use(&key) {
            self.glyphs_in_use.push(key);
            assert forall|k: GlyphonCacheKey| self.glyphs_in_use@.contains(k) <==> (before.contains(k)
                || k == key) by {
                if before.contains(k) {
                    let i = choose|i: int| 0 <= i < before.len() && before[i] == k;
                    assert(self.glyphs_in_use@[i] == k);
                }
                if k == key {
                    assert(self.glyphs_in_use@[before.len() as int] == k);
                }
            }
        }
        assert(self.in_use() =~= old(self).in_use().insert(key));
    }

    /// `id` is a live packer allocation that no cached glyph holds.
    pub closed spec fn is_fresh_allocation(&self, id: AllocId) -> bool {
        &&& packer_live(self.packer).contains(id)
        &&& forall|i: int| 0 <= i < self.entries().len() ==> #[trigger] self.id_at(i) != Some(id)
    }

    proof fn lemma_frame(a: &Self, b: &Self)
        requires
            a.core_wf(),
            cache_entries(b.glyph_cache) == cache_entries(a.glyph_cache),
            a.size <= b.size <= b.max_texture_dimension_2d,
            b.max_texture_dimension_2d == a.max_texture_dimension_2d,
            packer_size(b.packer) == b.size,
            packer_live(a.packer).subset_of(packer_live(b.packer)),
            packer_rects(a.packer).submap_of(packer_rects(b.packer)),
            packer_rects(b.packer).dom() == packer_live(b.packer),
            all_disjoint(packer_rects(b.packer)),
            b.glyphs_in_use@.no_duplicates(),
        ensures
            b.core_wf(),
            forall|id: AllocId| #[trigger] b.holds_id(id) == a.holds_id(id),
            a.live_held_except(None) && packer_live(b.packer) == packer_live(a.packer) ==> b.wf(),
    {
        assert forall|i: int| 0 <= i < b.entries().len() implies #[trigger] b.id_at(i) == a.id_at(i) by {}
        assert forall|i: int| 0 <= i < b.entries().len() implies details_fit(
            #[trigger] b.entries()[i].1,
            b.size as int,
        ) by {
            assert(details_fit(a.entries()[i].1, a.size as int));
        }
        assert forall|i: int|
            0 <= i < b.entries().len() && (#[trigger] b.id_at(i)).is_some() implies packer_live(
            b.packer,
        ).contains(b.id_at(i).unwrap()) by {
            assert(a.id_at(i).is_some());
        }
        assert forall|i: int, j: int|
            0 <= i < b.entries().len() && 0 <= j < b.entries().len() && i != j
                && (#[trigger] b.id_at(i)).is_some() && (#[trigger] b.id_at(j)).is_some() implies b.id_at(i)
            != b.id_at(j) by {
            assert(a.id_at(i).is_some() && a.id_at(j).is_some());
        }
        assert forall|i: int|
            0 <= i < b.entries().len() && (#[trigger] b.id_at(i)).is_some() implies packer_rects(b.packer)[b.id_at(i).unwrap()]
            == rect_of(b.entries()[i].1) by {
            assert(a.id_at(i).is_some());
            assert(packer_live(a.packer).contains(a.id_at(i).unwrap()));
        }
        assert forall|id: AllocId| #[trigger] b.holds_id(id) == a.holds_id(id) by {
            if b.holds_id(id) {
                let i = choose|i: int| 0 <= i < b.entries().len() && #[trigger] b.id_at(i) == Some(id);
                assert(a.id_at(i) == Some(id));
            }
            if a.holds_id(id) {
                let i = choose|i: int| 0 <= i < a.entries().len() && #[trigger] a.id_at(i) == Some(id);
                assert(b.id_at(i) == Some(id));
            }
        }
    }

    /// Removing entry `i` from the cache and freeing its allocation, if it has one, keeps
    /// the plane well formed and every other key's details.
    proof fn lemma_remove_at(a: &Self, b: &Self, i: int)
        requires
            a.wf(),
            0 <= i < a.entries().len(),
            b.entries() == a.entries().remove(i),
            b.size == a.size,
            b.max_texture_dimension_2d == a.max_texture_dimension_2d,
            packer_size(b.packer) == packer_size(a.packer),
            packer_live(b.packer) == match a.id_at(i) {
                Some(id) => packer_live(a.packer).remove(id),
                None => packer_live(a.packer),
            },
            packer_rects(b.packer) == match a.id_at(i) {
                Some(id) => packer_rects(a.packer).remove(id),
                None => packer_rects(a.packer),
            },
            b.glyphs_in_use@ == a.glyphs_in_use@,
        ensures
            b.wf(),
            forall|k: GlyphonCacheKey| has_key(b.entries(), k) <==> has_key(a.entries(), k) && k != a.entries()[i].0,
            forall|k: GlyphonCacheKey| has_key(b.entries(), k) ==> lookup(b.entries(), k) == lookup(a.entries(), k),
    {
        let s = a.entries();
        let t = b.entries();
        let m = |p: int| if p < i { p } else { p + 1 };
        assert forall|p: int| 0 <= p < t.len() implies #[trigger] t[p] == s[m(p)] && b.id_at(p) == a.id_at(m(p)) by {}
        assert forall|p: int| 0 <= p < t.len() implies details_fit(#[trigger] t[p].1, b.size as int) by {
            assert(t[p] == s[m(p)]);
            assert(details_fit(s[m(p)].1, a.size as int));
        }
        assert forall|p: int|
            0 <= p < t.len() && (#[trigger] b.id_at(p)).is_some() implies packer_live(b.packer).contains(
            b.id_at(p).unwrap(),
        ) by {
            assert(t[p] == s[m(p)]);
            assert(a.id_at(m(p)).is_some());
            if a.id_at(i).is_some() {
                assert(a.id_at(i) != a.id_at(m(p)));
            }
        }
        assert forall|p: int, q: int|
            0 <= p < t.len() && 0 <= q < t.len() && p != q && (#[trigger] b.id_at(p)).is_some()
                && (#[trigger] b.id_at(q)).is_some() implies b.id_at(p) != b.id_at(q) by {
            assert(t[p] == s[m(p)] && t[q] == s[m(q)]);
            assert(a.id_at(m(p)).is_some() && a.id_at(m(q)).is_some());
        }
        assert forall|p: int, q: int| 0 <= p < t.len() && 0 <= q < t.len() && p != q implies t[p].0
            != t[q].0 by {
            assert(t[p] == s[m(p)] && t[q] == s[m(q)]);
        }
        assert forall|p: int|
            0 <= p < t.len() && (#[trigger] b.id_at(p)).is_some() implies packer_rects(b.packer)[b.id_at(p).unwrap()]
            == rect_of(t[p].1) by {
            assert(t[p] == s[m(p)]);
            assert(a.id_at(m(p)).is_some());
            if a.id_at(i).is_some() {
                assert(a.id_at(i) != a.id_at(m(p)));
            }
        }
        assert(packer_rects(b.packer).dom() =~= packer_live(b.packer));
        assert forall|id: AllocId| #[trigger] packer_live(b.packer).contains(id) implies b.holds_id(id) by {
            assert(packer_live(a.packer).contains(id));
            let j = choose|j: int| 0 <= j < s.len() && #[trigger] a.id_at(j) == Some(id);
            assert(j != i);
            let p = if j < i { j } else { j - 1 };
            assert(t[p] == s[j]);
            assert(b.id_at(p) == Some(id));
        }
        assert forall|k: GlyphonCacheKey| has_key(t, k) <==> has_key(s, k) && k != s[i].0 by {
            if has_key(t, k) {
                let p = choose|p: int| 0 <= p < t.len() && (#[trigger] t[p]).0 == k;
                assert(t[p] == s[m(p)]);
            }
            if has_key(s, k) && k != s[i].0 {
                let j = choose|j: int| 0 <= j < s.len() && (#[trigger] s[j]).0 == k;
                let p = if j < i { j } else { j - 1 };
                assert(t[p] == s[j]);
            }
        }
        assert forall|k: GlyphonCacheKey| has_key(t, k) implies lookup(t, k) == lookup(s, k) by {
            let p = choose|p: int| 0 <= p < t.len() && (#[trigger] t[p]).0 == k;
            assert(t[p] == s[m(p)]);
            lemma_lookup_at(t, p);
            lemma_lookup_at(s, m(p));
        }
    }

    /// Finds room for a `width` by `height` bitmap. While the packer has none, the least
    /// recently used glyph that holds an allocation and is not in use by the frame being
    /// prepared is evicted; glyphs without an allocation are skipped, not evicted. When
    /// every glyph that holds an allocation is in use, the plane is full for this frame.
    pub fn try_allocate(&mut self, width: u16, height: u16) -> (r: Option<(AllocId, u16, u16)>)
        requires
            old(self).wf(),
        ensures
            final(self).core_wf(),
            final(self).in_use() == old(self).in_use(),
            final(self).spec_kind() == old(self).spec_kind(),
            final(self).spec_size() == old(self).spec_size(),
            final(self).spec_max_size() == old(self).spec_max_size(),
            forall|k: GlyphonCacheKey|
                #[trigger] has_key(final(self).entries(), k) ==> has_key(old(self).entries(), k) && lookup(
                    final(self).entries(),
                    k,
                ) == lookup(old(self).entries(), k),
            forall|k: GlyphonCacheKey|
                #[trigger] has_key(old(self).entries(), k) && !has_key(final(self).entries(), k) ==> {
                    &&& !old(self).in_use().contains(k)
                    &&& lookup(old(self).entries(), k).unwrap().atlas_id is Some
                },
            old(self).fits(width, height) ==> final(self).entries() == old(self).entries(),
            forall|a: int, b: int|
                0 <= a < b < old(self).entries().len() && !has_key(
                    final(self).entries(),
                    #[trigger] old(self).entries()[b].0,
                ) && evictable(#[trigger] old(self).entries()[a], old(self).in_use()) ==> !has_key(
                    final(self).entries(),
                    old(self).entries()[a].0,
                ),
            match r {
                Some((id, x, y)) => {
                    &&& final(self).is_fresh_allocation(id)
                    &&& final(self).live_held_except(Some(id))
                    &&& final(self).allocated_rect(id) == (x as int, y as int, width as int, height as int)
                    &&& forall|i: int|
                        0 <= i < final(self).entries().len() && (#[trigger] final(self).entries()[i]).1.gpu_cache is InAtlas
                            ==> rects_disjoint(
                            rect_of(final(self).entries()[i].1),
                            (x as int, y as int, width as int, height as int),
                        )
                    &&& x + width <= final(self).spec_size()
                    &&& y + height <= final(self).spec_size()
                },
                None => {
                    &&& final(self).wf()
                    &&& !final(self).fits(width, height)
                    &&& forall|i: int|
                        0 <= i < final(self).entries().len() && (#[trigger] final(self).entries()[i]).1.atlas_id is Some
                            ==> final(self).in_use().contains(final(self).entries()[i].0)
                },
            },
    {
        let ghost start = *self;
        let ghost n0 = start.entries().len();
        // One look at the cache, newest first: glyphs are only removed below, oldest first.
        let all = cache_entries_newest_first(&self.glyph_cache);
        let mut c: usize = 0;
        let ghost mut prefix: Seq<int> = Seq::empty();
        let ghost mut evicted: bool = false;
        proof {
            assert(self.entries() =~= prefix.map_values(|j: int| start.entries()[j]) + start.entries().subrange(
                0,
                n0 as int,
            ));
        }
        loop
            invariant
                self.wf(),
                self.in_use() == start.in_use(),
                self.kind == start.kind,
                self.size == start.size,
                self.max_texture_dimension_2d == start.max_texture_dimension_2d,
                start == *old(self),
                start.wf(),
                n0 == start.entries().len(),
                all@ == start.entries().reverse(),
                self.eviction_state(start, prefix, c as int),
                !evicted ==> self.packer == start.packer && self.entries() == start.entries(),
                evicted ==> !start.fits(width, height),
            decreases n0 - c,
        {
            let ghost before_alloc = *self;
            match packer_allocate(&mut self.packer, width, height) {
                Some(a) => {
                    proof {
                        Self::lemma_frame(&before_alloc, self);
                        assert forall|i: int| 0 <= i < self.entries().len() implies #[trigger] self.id_at(i)
                            != Some(a.0) by {
                            if self.id_at(i).is_some() {
                                assert(before_alloc.id_at(i).is_some());
                            }
                        }
                        assert forall|i: int|
                            0 <= i < self.entries().len() && (#[trigger] self.entries()[i]).1.gpu_cache is InAtlas
                                implies rects_disjoint(
                            rect_of(self.entries()[i].1),
                            (a.1 as int, a.2 as int, width as int, height as int),
                        ) by {
                            assert(details_fit(before_alloc.entries()[i].1, before_alloc.size as int));
                            assert(before_alloc.id_at(i).is_some());
                            let id = before_alloc.id_at(i).unwrap();
                            assert(packer_live(before_alloc.packer).contains(id));
                            assert(packer_rects(before_alloc.packer).contains_key(id));
                        }
                        assert forall|id: AllocId| #[trigger] packer_live(self.packer).contains(id)
                            implies self.holds_id(id) || Some(a.0) == Some(id) by {
                            if id != a.0 {
                                assert(packer_live(before_alloc.packer).contains(id));
                            }
                        }
                        Self::lemma_eviction_state(start, *self, prefix, c as int);
                        if !evicted {
                            assert(self.entries() == start.entries());
                        }
                    }
                    return Some(a);
                },
                None => {
                    proof {
                        Self::lemma_frame(&before_alloc, self);
                        if !evicted {
                            assert(!start.fits(width, height));
                        }
                    }
                },
            }
            // Skip, from the oldest, the glyphs that may not be evicted.
            while c < all.len() && !(all[all.len() - 1 - c].1.atlas_id.is_some() && !self.is_in_use(
                &all[all.len() - 1 - c].0,
            ))
                invariant
                    self.wf(),
                    self.in_use() == start.in_use(),
                    n0 == start.entries().len(),
                    all@ == start.entries().reverse(),
                    self.eviction_state(start, prefix, c as int),
                decreases n0 - c,
            {
                proof {
                    let s = start.entries();
                    assert(all@[n0 - 1 - c] == s[c as int]);
                    let old_prefix = prefix;
                    prefix = prefix.push(c as int);
                    assert(prefix.map_values(|j: int| s[j]) =~= old_prefix.map_values(|j: int| s[j]).push(s[c as int]));
                    assert(self.entries() =~= prefix.map_values(|j: int| s[j]) + s.subrange(c + 1, n0 as int));
                    assert forall|j: int| 0 <= j < c + 1 && !prefix.contains(j) implies evictable(
                        #[trigger] s[j],
                        start.in_use(),
                    ) by {
                        if j < c {
                            assert(!old_prefix.contains(j)) by {
                                if old_prefix.contains(j) {
                                    let p = choose|p: int| 0 <= p < old_prefix.len() && old_prefix[p] == j;
                                    assert(prefix[p] == j);
                                }
                            }
                        } else {
                            assert(prefix[prefix.len() - 1] == j);
                        }
                    }
                }
                c += 1;
            }
            if c == all.len() {
                proof {
                    Self::lemma_eviction_state(start, *self, prefix, c as int);
                    if !evicted {
                        assert(self.entries() == start.entries());
                    }
                    assert forall|i: int|
                        0 <= i < self.entries().len() && (#[trigger] self.entries()[i]).1.atlas_id is Some
                            implies self.in_use().contains(self.entries()[i].0) by {
                        assert(self.entries()[i] == start.entries()[prefix[i]]);
                    }
                }
                return None;
            }
            let (key, details) = all[all.len() - 1 - c];
            let ghost before_pop = *self;
            let ghost i = prefix.len() as int;
            proof {
                let s = start.entries();
                assert(all@[n0 - 1 - c] == s[c as int]);
                assert(self.entries()[i] == s[c as int]);
                assert(!evicted ==> !start.fits(width, height));
            }
            let _ = cache_pop(&mut self.glyph_cache, &key);
            if let Some(id) = details.atlas_id {
                assert(before_pop.id_at(i) == Some(id));
                assert(packer_live(self.packer).contains(id));
                packer_deallocate(&mut self.packer, id);
            }
            proof {
                let s = start.entries();
                Self::lemma_remove_at(&before_pop, self, i);
                assert(self.entries() =~= prefix.map_values(|j: int| s[j]) + s.subrange(c + 1, n0 as int));
                assert forall|j: int| 0 <= j < c + 1 && !prefix.contains(j) implies evictable(
                    #[trigger] s[j],
                    start.in_use(),
                ) by {
                    if j == c {
                        assert(s[j] == (key, details));
                    }
                }
                evicted = true;
            }
            c += 1;
        }
    }

    /// Where an eviction scan stands: the glyphs kept from before cursor `c` (at `prefix`,
    /// in order) may not be evicted, those dropped before it could be, and every glyph
    /// from `c` on is still there.
    closed spec fn eviction_state(&self, start: Self, prefix: Seq<int>, c: int) -> bool {
        let s = start.entries();
        let n = s.len();
        &&& 0 <= c <= n
        &&& self.entries() == prefix.map_values(|j: int| s[j]) + s.subrange(c, n as int)
        &&& forall|p: int| 0 <= p < prefix.len() ==> 0 <= #[trigger] prefix[p] < c
        &&& forall|p: int, q: int| 0 <= p < q < prefix.len() ==> #[trigger] prefix[p] < #[trigger] prefix[q]
        &&& forall|p: int| 0 <= p < prefix.len() ==> !evictable(s[#[trigger] prefix[p]], start.in_use())
        &&& forall|j: int| 0 <= j < c && !prefix.contains(j) ==> evictable(#[trigger] s[j], start.in_use())
    }

    proof fn lemma_eviction_state(start: Self, cur: Self, prefix: Seq<int>, c: int)
        requires
            keys_distinct(start.entries()),
            keys_distinct(cur.entries()),
            cur.eviction_state(start, prefix, c),
        ensures
            forall|k: GlyphonCacheKey|
                #[trigger] has_key(cur.entries(), k) ==> has_key(start.entries(), k) && lookup(
                    cur.entries(),
                    k,
                ) == lookup(start.entries(), k),
            forall|k: GlyphonCacheKey|
                #[trigger] has_key(start.entries(), k) && !has_key(cur.entries(), k) ==> {
                    &&& !start.in_use().contains(k)
                    &&& lookup(start.entries(), k).unwrap().atlas_id is Some
                },
            forall|a: int, b: int|
                0 <= a < b < start.entries().len() && !has_key(
                    cur.entries(),
                    #[trigger] start.entries()[b].0,
                ) && evictable(#[trigger] start.entries()[a], start.in_use()) ==> !has_key(
                    cur.entries(),
                    start.entries()[a].0,
                ),
    {
        let s = start.entries();
        let t = cur.entries();
        let n = s.len();
        let pl = prefix.len();
        let idx = |p: int| if p < pl { prefix[p] } else { c + (p - pl) };
        assert forall|p: int| 0 <= p < t.len() implies #[trigger] t[p] == s[idx(p)] && 0 <= idx(p) < n by {
            if p < pl {
                assert(t[p] == prefix.map_values(|j: int| s[j])[p]);
            }
        }
        // a glyph of `start` is still there exactly when it was kept
        assert forall|j: int| 0 <= j < n implies (has_key(t, #[trigger] s[j].0) <==> (prefix.contains(j) || c <= j)) by {
            if has_key(t, s[j].0) {
                let p = choose|p: int| 0 <= p < t.len() && (#[trigger] t[p]).0 == s[j].0;
                assert(t[p] == s[idx(p)]);
                assert(idx(p) == j);
                if p < pl {
                    assert(prefix[p] == j);
                }
            }
            if prefix.contains(j) {
                let p = choose|p: int| 0 <= p < pl && prefix[p] == j;
                assert(t[p] == s[j]);
            } else if c <= j {
                assert(t[pl + (j - c)] == s[j]);
            }
        }
        assert forall|k: GlyphonCacheKey| #[trigger] has_key(t, k) implies has_key(s, k) && lookup(t, k) == lookup(
            s,
            k,
        ) by {
            let p = choose|p: int| 0 <= p < t.len() && (#[trigger] t[p]).0 == k;
            assert(t[p] == s[idx(p)]);
            lemma_lookup_at(t, p);
            lemma_lookup_at(s, idx(p));
        }
        assert forall|k: GlyphonCacheKey| #[trigger] has_key(s, k) && !has_key(t, k) implies {
            &&& !start.in_use().contains(k)
            &&& lookup(s, k).unwrap().atlas_id is Some
        } by {
            let j = choose|j: int| 0 <= j < n && (#[trigger] s[j]).0 == k;
            lemma_lookup_at(s, j);
            assert(!prefix.contains(j) && j < c);
        }
        assert forall|a: int, b: int|
            0 <= a < b < n && !has_key(t, #[trigger] s[b].0) && evictable(#[trigger] s[a], start.in_use())
                implies !has_key(t, s[a].0) by {
            assert(b < c);
            if prefix.contains(a) {
                let p = choose|p: int| 0 <= p < pl && prefix[p] == a;
                assert(!evictable(s[prefix[p]], start.in_use()));
            }
        }
    }

    /// What a key finds in a well-formed plane lies inside its texture.
    pub proof fn lemma_lookup_fits(&self, k: GlyphonCacheKey)
        requires
            self.wf(),
            lookup(self.entries(), k) is Some,
        ensures
            details_fit(lookup(self.entries(), k).unwrap(), self.spec_size()),
            self.spec_size() < u16::MAX,
    {
        lemma_lookup_is_entry(self.entries(), k);
        let i = choose|i: int|
            0 <= i < self.entries().len() && self.entries()[i].0 == k && self.entries()[i].1 == lookup(
                self.entries(),
                k,
            ).unwrap();
        assert(details_fit(self.entries()[i].1, self.size as int));
    }

    /// Makes the glyph under `key` the most recently used and marks it as in use by the
    /// frame being prepared.
    pub fn promote(&mut self, key: GlyphonCacheKey)
        requires
            old(self).wf(),
        ensures
            final(self).wf(),
            final(self).in_use() == old(self).in_use().insert(key),
            final(self).spec_kind() == old(self).spec_kind(),
            final(self).spec_size() == old(self).spec_size(),
            final(self).spec_max_size() == old(self).spec_max_size(),
            forall|i: int|
                0 <= i < old(self).entries().len() && (#[trigger] old(self).entries()[i]).0 == key
                    ==> final(self).entries() == old(self).entries().remove(i).push(
                    old(self).entries()[i],
                ),
            !has_key(old(self).entries(), key) ==> final(self).entries() == old(self).entries(),
            forall|k: GlyphonCacheKey| lookup(final(self).entries(), k) == lookup(old(self).entries(), k),
            forall|e: Entry| final(self).entries().contains(e) <==> old(self).entries().contains(e),
    {
        let ghost before = *self;
        cache_promote(&mut self.glyph_cache, &key);
        proof {
            let s = before.entries();
            if has_key(s, key) {
                let i = choose|i: int| 0 <= i < s.len() && (#[trigger] s[i]).0 == key;
                lemma_move_to_back(s, i);
                let t = self.entries();
                let n = s.len();
                assert forall|p: int| 0 <= p < n implies #[trigger] t[p] == s[if p < i {
                    p
                } else if p == n - 1 {
                    i
                } else {
                    p + 1
                }] by {}
                assert forall|p: int| 0 <= p < n implies details_fit(#[trigger] t[p].1, self.size as int) by {
                    let a = if p < i { p } else if p == n - 1 { i } else { p + 1 };
                    assert(t[p] == s[a]);
                }
                assert forall|p: int|
                    0 <= p < n && (#[trigger] self.id_at(p)).is_some() implies packer_live(
                    self.packer,
                ).contains(self.id_at(p).unwrap()) by {
                    let a = if p < i { p } else if p == n - 1 { i } else { p + 1 };
                    assert(t[p] == s[a]);
                    assert(before.id_at(a) == self.id_at(p));
                }
                assert forall|p: int, q: int|
                    0 <= p < n && 0 <= q < n && p != q && (#[trigger] self.id_at(p)).is_some()
                        && (#[trigger] self.id_at(q)).is_some() implies self.id_at(p) != self.id_at(q) by {
                    let a = if p < i { p } else if p == n - 1 { i } else { p + 1 };
                    let b = if q < i { q } else if q == n - 1 { i } else { q + 1 };
                    assert(t[p] == s[a]);
                    assert(t[q] == s[b]);
                    assert(before.id_at(a) == self.id_at(p));
                    assert(before.id_at(b) == self.id_at(q));
                }
                assert forall|p: int|
                    0 <= p < n && (#[trigger] self.id_at(p)).is_some() implies packer_rects(self.packer)[self.id_at(p).unwrap()]
                    == rect_of(t[p].1) by {
                    let a = if p < i { p } else if p == n - 1 { i } else { p + 1 };
                    assert(t[p] == s[a]);
                    assert(before.id_at(a) == self.id_at(p));
                }
            } else {
                assert(self.entries() == s);
                Self::lemma_frame(&before, self);
            }
        }
        assert(self.core_wf());
        assert forall|id: AllocId| #[trigger] packer_live(self.packer).contains(id) implies self.holds_id(id) by {
            let s = before.entries();
            let i = choose|i: int| 0 <= i < s.len() && #[trigger] before.id_at(i) == Some(id);
            if has_key(s, key) {
                assert(s.contains(s[i]));
                assert(self.entries().contains(s[i]));
                let p = choose|p: int| 0 <= p < self.entries().len() && self.entries()[p] == s[i];
                assert(self.id_at(p) == Some(id));
            } else {
                assert(self.id_at(i) == Some(id));
            }
        }
        let ghost mid = *self;
        self.mark_in_use(key);
        proof {
            Self::lemma_frame(&mid, self);
        }
    }

    /// Caches `details` under `key`, a glyph not cached yet, as the most recently used
    /// glyph, and marks it as in use by the frame being prepared.
    pub fn put(&mut self, key: GlyphonCacheKey, details: GlyphDetails)
        requires
            old(self).core_wf(),
            old(self).live_held_except(details.atlas_id),
            !has_key(old(self).entries(), key),
            old(self).entries().len() < usize::MAX,
            details_fit(details, old(self).spec_size()),
            details.atlas_id matches Some(id) ==> old(self).is_fresh_allocation(id)
                && old(self).allocated_rect(id) == rect_of(details),
        ensures
            final(self).wf(),
            final(self).entries() == old(self).entries().push((key, details)),
            final(self).in_use() == old(self).in_use().insert(key),
            final(self).spec_kind() == old(self).spec_kind(),
            final(self).spec_size() == old(self).spec_size(),
            final(self).spec_max_size() == old(self).spec_max_size(),
    {
        let ghost before = *self;
        cache_put(&mut self.glyph_cache, key, details);
        self.mark_in_use(key);
        proof {
            let s = before.entries();
            let t = self.entries();
            assert forall|i: int| 0 <= i < s.len() implies #[trigger] self.id_at(i) == before.id_at(i) by {
                assert(t[i] == s[i]);
            }
            assert forall|i: int| 0 <= i < t.len() implies details_fit(#[trigger] t[i].1, self.size as int) by {
                if i < s.len() {
                    assert(t[i] == s[i]);
                }
            }
            assert forall|i: int|
                0 <= i < t.len() && (#[trigger] self.id_at(i)).is_some() implies packer_live(
                self.packer,
            ).contains(self.id_at(i).unwrap()) by {
                if i < s.len() {
                    assert(before.id_at(i).is_some());
                }
            }
            assert forall|p: int, q: int|
                0 <= p < t.len() && 0 <= q < t.len() && p != q && (#[trigger] self.id_at(p)).is_some()
                    && (#[trigger] self.id_at(q)).is_some() implies self.id_at(p) != self.id_at(q) by {
                if p < s.len() && q < s.len() {
                    assert(before.id_at(p).is_some() && before.id_at(q).is_some());
                } else if p < s.len() {
                    assert(before.id_at(p) != Some(details.atlas_id.unwrap()));
                } else {
                    assert(before.id_at(q) != Some(details.atlas_id.unwrap()));
                }
            }
            assert forall|p: int, q: int| 0 <= p < t.len() && 0 <= q < t.len() && p != q implies t[p].0
                != t[q].0 by {
                if p < s.len() && q < s.len() {
                    assert(t[p] == s[p] && t[q] == s[q]);
                } else if p < s.len() {
                    assert(t[p] == s[p]);
                } else {
                    assert(t[q] == s[q]);
                }
            }
            assert forall|i: int|
                0 <= i < t.len() && (#[trigger] self.id_at(i)).is_some() implies packer_rects(self.packer)[self.id_at(i).unwrap()]
                == rect_of(t[i].1) by {
                if i < s.len() {
                    assert(t[i] == s[i]);
                    assert(before.id_at(i).is_some());
                }
            }
            assert forall|id: AllocId| #[trigger] packer_live(self.packer).contains(id) implies self.holds_id(
                id,
            ) by {
                if details.atlas_id == Some(id) {
                    assert(self.id_at(s.len() as int) == Some(id));
                } else {
                    assert(packer_live(before.packer).contains(id));
                    let i = choose|i: int| 0 <= i < s.len() && #[trigger] before.id_at(i) == Some(id);
                    assert(self.id_at(i) == Some(id));
                }
            }
        }
    }

    /// Clears the in-use marks: every glyph may be evicted again.
    pub fn trim(&mut self)
        requires
            old(self).wf(),
        ensures
            final(self).wf(),
            final(self).in_use() == Set::<GlyphonCacheKey>::empty(),
            same_but_marks(*old(self), *final(self)),
    {
        let ghost before = *self;
        self.glyphs_in_use.clear();
        proof {
            Self::lemma_frame(&before, self);
        }
        assert(self.in_use() =~= Set::<GlyphonCacheKey>::empty());
    }

    /// Doubles the side of the texture, up to the largest size allowed; `false` when it
    /// is already that large. Cached glyphs keep their places.
    pub fn grow(&mut self) -> (r: bool)
        requires
            old(self).wf(),
        ensures
            final(self).wf(),
            r == (old(self).spec_size() < old(self).spec_max_size()),
            final(self).spec_size() == if r {
                if 2 * old(self).spec_size() < old(self).spec_max_size() {
                    2 * old(self).spec_size()
                } else {
                    old(self).spec_max_size()
                }
            } else {
                old(self).spec_size()
            },
            final(self).entries() == old(self).entries(),
            final(self).in_use() == old(self).in_use(),
            final(self).spec_kind() == old(self).spec_kind(),
            final(self).spec_max_size() == old(self).spec_max_size(),
            !r ==> *final(self) == *old(self),
    {
        if self.size >= self.max_texture_dimension_2d {
            return false;
        }
        let ghost before = *self;
        let doubled = self.size * 2;
        let new_size = if doubled < self.max_texture_dimension_2d {
            doubled
        } else {
            self.max_texture_dimension_2d
        };
        packer_grow(&mut self.packer, new_size as u16);
        self.size = new_size;
        proof {
            Self::lemma_frame(&before, self);
        }
        true
    }

    /// The details cached under `key`, leaving the recency order as it is.
    pub fn peek(&self, key: &GlyphonCacheKey) -> (r: Option<GlyphDetails>)
        requires
            self.wf(),
        ensures
            r == lookup(self.entries(), *key),
    {
        let r = cache_peek(&self.glyph_cache, key);
        proof {
            let s = self.entries();
            match r {
                Some(v) => {
                    let i = choose|i: int| 0 <= i < s.len() && s[i] == (*key, v);
                    lemma_lookup_at(s, i);
                },
                None => {
                    assert(!has_key(s, *key));
                },
            }
        }
        r
    }

    /// The number of cached glyphs.
    pub fn len(&self) -> (r: usize)
        ensures
            r == self.entries().len(),
    {
        cache_len(&self.glyph_cache)
    }

    /// The glyphs whose bitmaps are in the texture, most recently used first: what must be
    /// uploaded again into a new texture.
    pub fn glyphs_in_atlas(&self) -> (r: Vec<Entry>)
        requires
            self.wf(),
        ensures
            forall|e: Entry|
                r@.contains(e) <==> (self.entries().contains(e)
                    && e.1.gpu_cache is InAtlas),
    {
        let all = cache_entries_newest_first(&self.glyph_cache);
        let ghost s = self.entries();
        let mut r: Vec<Entry> = Vec::new();
        let mut i: usize = 0;
        while i < all.len()
            invariant
                all@ == s.reverse(),
                i <= all@.len(),
                forall|e: Entry|
                    r@.contains(e) <==> (exists|j: int|
                        0 <= j < i && all@[j] == e && e.1.gpu_cache is InAtlas),
            decreases all@.len() - i,
        {
            let e = all[i];
            let ghost r0 = r@;
            if let GpuCacheStatus::InAtlas { .. } = e.1.gpu_cache {
                r.push(e);
            }
            assert forall|f: Entry|
                r@.contains(f) <==> (exists|j: int|
                    0 <= j < i + 1 && all@[j] == f && f.1.gpu_cache is InAtlas) by {
                if r@.contains(f) {
                    if r0.contains(f) {
                    } else {
                        assert(f == e);
                        assert(all@[i as int] == f);
                    }
                }
                if exists|j: int| 0 <= j < i + 1 && all@[j] == f && f.1.gpu_cache is InAtlas {
                    let j = choose|j: int| 0 <= j < i + 1 && all@[j] == f && f.1.gpu_cache is InAtlas;
                    if j < i {
                        assert(r0.contains(f));
                        let k = choose|k: int| 0 <= k < r0.len() && r0[k] == f;
                        assert(r@[k] == f);
                    } else {
                        assert(r@[r@.len() - 1] == f);
                    }
                }
            }
            i += 1;
        }
        assert forall|e: Entry|
            r@.contains(e) <==> (self.entries().contains(e) && e.1.gpu_cache is InAtlas) by {
            if self.entries().contains(e) && e.1.gpu_cache is InAtlas {
                let k = choose|k: int| 0 <= k < s.len() && s[k] == e;
                assert(all@[s.len() - 1 - k] == e);
            }
            if r@.contains(e) {
                let j = choose|j: int| 0 <= j < all@.len() && all@[j] == e && e.1.gpu_cache is InAtlas;
                assert(s[s.len() - 1 - j] == e);
            }
        }
        r
    }
}


/// The color mode of a [`TextAtlas`].
#[derive(Debug, Clone, Copy, PartialEq, Eq, Structural)]
pub enum ColorMode {
    /// Accurate color management: colored glyphs are stored in an sRGB texture.
    Accurate,
    /// Web color management: sRGB colors are stored in a linear texture, as browsers do.
    Web,
}

/// A glyph just placed in the atlas, and whether its plane grew to make room for it.
#[derive(Debug, Clone, Copy)]
pub struct InsertedGlyph {
    pub details: GlyphDetails,
    /// The plane's texture grew: every glyph in it must be uploaded again.
    pub plane_grew: bool,
}

/// The details a freshly rasterized image is cached with, given where it was placed.
pub open spec fn inserted_details(image: GlyphImageInfo, place: Option<(AllocId, u16, u16)>) -> GlyphDetails {
    GlyphDetails {
        width: image.width,
        height: image.height,
        gpu_cache: match place {
            Some((_, x, y)) => GpuCacheStatus::InAtlas { x, y, content_type: image.content_type },
            None => GpuCacheStatus::SkipRasterization,
        },
        atlas_id: match place {
            Some((id, _, _)) => Some(id),
            None => None,
        },
        top: image.top,
        left: image.left,
    }
}

/// Why an image found no room. Either the plane for its content type is at its largest,
/// its packer refuses the image, and every glyph there that holds an allocation is in use
/// by the frame being prepared; or the target plane's cache can hold no more entries, and
/// nothing changed.
pub open spec fn no_room_for(before: TextAtlas, after: TextAtlas, image: GlyphImageInfo) -> bool {
    let rasterized = image.width > 0 && image.height > 0;
    let p = after.plane(image.content_type);
    ||| {
        &&& rasterized
        &&& p.spec_size() == p.spec_max_size()
        &&& !p.fits(image.width, image.height)
        &&& forall|i: int|
            0 <= i < p.entries().len() && (#[trigger] p.entries()[i]).1.atlas_id is Some
                ==> p.in_use().contains(p.entries()[i].0)
    }
    ||| {
        &&& before.plane(
            if rasterized {
                image.content_type
            } else {
                ContentType::Color
            },
        ).entries().len() >= usize::MAX
        &&& after == before
    }
}

/// What inserting the glyph `key` with a freshly rasterized `image` did to the atlas.
///
/// On success the glyph is found with the image's size and placement, and marked as in
/// use in its plane: a non-empty image in the plane for its content type, at a fresh
/// allocation; an empty one in the color plane, with nothing else changed. On failure the
/// glyph stays uncached (see `no_room_for`). Either way, glyphs leave only the target
/// plane, only ones that hold an allocation and are not in use, and every glyph that
/// stays keeps its details.
pub open spec fn insertion(
    before: TextAtlas,
    after: TextAtlas,
    key: GlyphonCacheKey,
    image: GlyphImageInfo,
    r: Result<InsertedGlyph, PrepareError>,
) -> bool {
    let rasterized = image.width > 0 && image.height > 0;
    let ct = image.content_type;
    &&& after.spec_color_mode() == before.spec_color_mode()
    &&& forall|k: GlyphonCacheKey|
        #[trigger] has_key(after.plane(ct).entries(), k) && k != key ==> has_key(
            before.plane(ct).entries(),
            k,
        ) && lookup(after.plane(ct).entries(), k) == lookup(before.plane(ct).entries(), k)
    &&& forall|k: GlyphonCacheKey|
        #[trigger] has_key(before.plane(ct).entries(), k) && !has_key(after.plane(ct).entries(), k)
            ==> !before.plane(ct).in_use().contains(k) && lookup(
            before.plane(ct).entries(),
            k,
        ).unwrap().atlas_id is Some
    &&& after.plane(ct).spec_max_size() == before.plane(ct).spec_max_size()
    &&& after.plane(ct).spec_size() >= before.plane(ct).spec_size()
    &&& match r {
        Ok(ins) => {
            &&& after.spec_glyph(key) == Some(ins.details)
            &&& rasterized ==> {
                &&& ins.details.gpu_cache is InAtlas
                &&& ins.details == inserted_details(
                    image,
                    Some((ins.details.atlas_id.unwrap(), ins.details.gpu_cache->x, ins.details.gpu_cache->y)),
                )
                &&& after.plane(ct).in_use() == before.plane(ct).in_use().insert(key)
                &&& ct is Color ==> after.mask() == before.mask()
                &&& ct is Mask ==> after.color() == before.color()
                &&& !ins.plane_grew ==> after.plane(ct).spec_size() == before.plane(ct).spec_size()
            }
            &&& !rasterized ==> {
                &&& ins.details == inserted_details(image, None)
                &&& !ins.plane_grew
                &&& after.color().entries() == before.color().entries().push((key, ins.details))
                &&& after.color().in_use() == before.color().in_use().insert(key)
                &&& after.color().spec_size() == before.color().spec_size()
                &&& after.mask() == before.mask()
            }
        },
        Err(e) => {
            &&& e == PrepareError::AtlasFull
            &&& after.spec_glyph(key) is None
            &&& after.plane(ct).in_use() == before.plane(ct).in_use()
            &&& ct is Color ==> after.mask() == before.mask()
            &&& ct is Mask ==> after.color() == before.color()
            &&& no_room_for(before, after, image)
        },
    }
}

/// The plane entries after the glyph `key` became the most recently used one, if it was
/// there.
pub open spec fn moved_to_back(before: InnerAtlas, after: InnerAtlas, key: GlyphonCacheKey) -> bool {
    &&& forall|i: int|
        0 <= i < before.entries().len() && (#[trigger] before.entries()[i]).0 == key
            ==> after.entries() == before.entries().remove(i).push(before.entries()[i])
    &&& forall|e: Entry| after.entries().contains(e) <==> before.entries().contains(e)
    &&& after.in_use() == before.in_use().insert(key)
    &&& after.spec_size() == before.spec_size()
    &&& after.spec_max_size() == before.spec_max_size()
}

/// What a cache hit on `key` did: the glyph became the most recently used of the plane it
/// was found in (the mask plane first) and is marked as in use there; nothing else
/// changed, and every key finds what it found before.
pub open spec fn promoted(before: TextAtlas, after: TextAtlas, key: GlyphonCacheKey) -> bool {
    &&& forall|k: GlyphonCacheKey| after.spec_glyph(k) == before.spec_glyph(k)
    &&& after.spec_color_mode() == before.spec_color_mode()
    &&& if has_key(before.mask().entries(), key) {
        &&& moved_to_back(before.mask(), after.mask(), key)
        &&& after.color() == before.color()
    } else {
        &&& moved_to_back(before.color(), after.color(), key)
        &&& after.mask() == before.mask()
    }
}

/// An atlas of rasterized glyphs: a plane for colored glyphs and one for masks.
pub struct TextAtlas {
    color_atlas: InnerAtlas,
    mask_atlas: InnerAtlas,
    color_mode: ColorMode,
}

impl TextAtlas {
    pub closed spec fn color(&self) -> InnerAtlas {
        self.color_atlas
    }

    pub closed spec fn mask(&self) -> InnerAtlas {
        self.mask_atlas
    }

    pub closed spec fn spec_color_mode(&self) -> ColorMode {
        self.color_mode
    }

    /// The plane that stores glyphs of a content type.
    pub open spec fn plane(&self, content_type: ContentType) -> InnerAtlas {
        match content_type {
            ContentType::Color => self.color(),
            ContentType::Mask => self.mask(),
        }
    }

    /// Both planes are well formed and of their kinds, and no key is cached in both.
    pub open spec fn wf(&self) -> bool {
        &&& self.color().wf()
        &&& self.mask().wf()
        &&& self.color().spec_kind() is Color
        &&& self.mask().spec_kind() is Mask
        &&& forall|k: GlyphonCacheKey|
            !(#[trigger] has_key(self.color().entries(), k) && has_key(self.mask().entries(), k))
    }

    /// What a lookup of `key` finds: the mask plane first, then the color plane.
    pub open spec fn spec_glyph(&self, key: GlyphonCacheKey) -> Option<GlyphDetails> {
        match lookup(self.mask().entries(), key) {
            Some(d) => Some(d),
            None => lookup(self.color().entries(), key),
        }
    }

    /// Creates an atlas that manages color accurately.
    pub fn new(max_texture_dimension_2d: u32) -> (r: Self)
        requires
            0 < max_texture_dimension_2d <= MAX_PLANE_SIZE,
        ensures
            r.wf(),
            r.spec_color_mode() == ColorMode::Accurate,
            r.color().entries().len() == 0,
            r.mask().entries().len() == 0,
            r.color().spec_size() == min_u32(INITIAL_SIZE, max_texture_dimension_2d),
            r.mask().spec_size() == min_u32(INITIAL_SIZE, max_texture_dimension_2d),
            r.color().in_use() == Set::<GlyphonCacheKey>::empty(),
            r.mask().in_use() == Set::<GlyphonCacheKey>::empty(),
    {
        Self::with_color_mode(max_texture_dimension_2d, ColorMode::Accurate)
    }

    /// Creates an atlas with the given color mode; each plane's texture may grow to
    /// `max_texture_dimension_2d` pixels a side.
    pub fn with_color_mode(max_texture_dimension_2d: u32, color_mode: ColorMode) -> (r: Self)
        requires
            0 < max_texture_dimension_2d <= MAX_PLANE_SIZE,
        ensures
            r.wf(),
            r.spec_color_mode() == color_mode,
            r.color().entries().len() == 0,
            r.mask().entries().len() == 0,
            r.color().spec_kind() == (Kind::Color { srgb: color_mode == ColorMode::Accurate }),
            r.color().spec_max_size() == max_texture_dimension_2d,
            r.mask().spec_max_size() == max_texture_dimension_2d,
            r.color().spec_size() == min_u32(INITIAL_SIZE, max_texture_dimension_2d),
            r.mask().spec_size() == min_u32(INITIAL_SIZE, max_texture_dimension_2d),
            r.color().in_use() == Set::<GlyphonCacheKey>::empty(),
            r.mask().in_use() == Set::<GlyphonCacheKey>::empty(),
    {
        let srgb = match color_mode {
            ColorMode::Accurate => true,
            ColorMode::Web => false,
        };
        let color_atlas = InnerAtlas::new(Kind::Color { srgb }, max_texture_dimension_2d);
        let mask_atlas = InnerAtlas::new(Kind::Mask, max_texture_dimension_2d);
        TextAtlas { color_atlas, mask_atlas, color_mode }
    }

    /// The color mode.
    pub fn color_mode(&self) -> (r: ColorMode)
        ensures
            r == self.spec_color_mode(),
    {
        self.color_mode
    }

    /// The plane for colored glyphs.
    pub fn color_atlas(&self) -> (r: &InnerAtlas)
        ensures
            *r == self.color(),
    {
        &self.color_atlas
    }

    /// The plane for mask glyphs.
    pub fn mask_atlas(&self) -> (r: &InnerAtlas)
        ensures
            *r == self.mask(),
    {
        &self.mask_atlas
    }

    /// The plane that stores glyphs of a content type.
    pub fn inner_for_content(&self, content_type: ContentType) -> (r: &InnerAtlas)
        ensures
            *r == self.plane(content_type),
    {
        match content_type {
            ContentType::Color => &self.color_atlas,
            ContentType::Mask => &self.mask_atlas,
        }
    }

    /// Ends a frame: every glyph may be evicted again by the next one.
    pub fn trim(&mut self)
        requires
            old(self).wf(),
        ensures
            final(self).wf(),
            trimmed(*old(self), *final(self)),
    {
        self.mask_atlas.trim();
        self.color_atlas.trim();
    }

    /// The details cached under `key`, looking in the mask plane first.
    pub fn glyph(&self, key: &GlyphonCacheKey) -> (r: Option<GlyphDetails>)
        requires
            self.wf(),
        ensures
            r == self.spec_glyph(*key),
    {
        match self.mask_atlas.peek(key) {
            Some(d) => Some(d),
            None => self.color_atlas.peek(key),
        }
    }

    /// Grows the plane for a content type; `false` when it is already at its largest.
    pub fn grow(&mut self, content_type: ContentType) -> (r: bool)
        requires
            old(self).wf(),
        ensures
            final(self).wf(),
            r == (old(self).plane(content_type).spec_size() < old(self).plane(
                content_type,
            ).spec_max_size()),
            final(self).plane(content_type).entries() == old(self).plane(content_type).entries(),
            final(self).plane(content_type).in_use() == old(self).plane(content_type).in_use(),
            final(self).plane(content_type).spec_size() == if r {
                if 2 * old(self).plane(content_type).spec_size() < old(self).plane(
                    content_type,
                ).spec_max_size() {
                    2 * old(self).plane(content_type).spec_size()
                } else {
                    old(self).plane(content_type).spec_max_size()
                }
            } else {
                old(self).plane(content_type).spec_size()
            },
            final(self).plane(content_type).spec_max_size() == old(self).plane(
                content_type,
            ).spec_max_size(),
            content_type is Color ==> final(self).mask() == old(self).mask(),
            content_type is Mask ==> final(self).color() == old(self).color(),
            final(self).spec_color_mode() == old(self).spec_color_mode(),
            final(self).plane(content_type).spec_kind() == old(self).plane(content_type).spec_kind(),
            !r ==> *final(self) == *old(self),
    {
        match content_type {
            ContentType::Mask => self.mask_atlas.grow(),
            ContentType::Color => self.color_atlas.grow(),
        }
    }

    /// Looks `key` up as the frame being prepared draws it: a glyph found is made the most
    /// recently used of its plane and marked as in use there.
    pub fn promote_cached(&mut self, key: GlyphonCacheKey) -> (r: Option<GlyphDetails>)
        requires
            old(self).wf(),
        ensures
            final(self).wf(),
            r == old(self).spec_glyph(key),
            r is Some ==> promoted(*old(self), *final(self), key),
            r is None ==> *final(self) == *old(self),
    {
        let ghost before = *self;
        match self.mask_atlas.peek(&key) {
            Some(d) => {
                self.mask_atlas.promote(key);
                proof {
                    lemma_same_contents_same_keys(before.mask().entries(), self.mask().entries());
                }
                Some(d)
            },
            None => {
                match self.color_atlas.peek(&key) {
                    Some(d) => {
                        self.color_atlas.promote(key);
                        proof {
                            lemma_same_contents_same_keys(before.color().entries(), self.color().entries());
                            assert(!has_key(before.mask().entries(), key));
                        }
                        Some(d)
                    },
                    None => None,
                }
            },
        }
    }

    /// Caches a glyph that is not cached yet, from the size and placement of its freshly
    /// rasterized image. A non-empty image gets room in the plane for its content type,
    /// evicting glyphs not in use and then growing the plane as needed; an empty one is
    /// recorded in the color plane so that it is not rasterized again. Either way the
    /// glyph is marked as in use (see `insertion`).
    pub fn insert_glyph(&mut self, key: GlyphonCacheKey, image: GlyphImageInfo) -> (r: Result<
        InsertedGlyph,
        PrepareError,
    >)
        requires
            old(self).wf(),
            old(self).spec_glyph(key) is None,
        ensures
            final(self).wf(),
            insertion(*old(self), *final(self), key, image, r),
    {
        let ghost start = *self;
        let ct = image.content_type;
        proof {
            assert(!has_key(start.mask().entries(), key));
            assert(!has_key(start.color().entries(), key));
        }
        if image.width > 0 && image.height > 0 {
            if self.inner_for_content(ct).len() == usize::MAX {
                return Err(PrepareError::AtlasFull);
            }
            let mut grew = false;
            let mut found: Option<(AllocId, u16, u16)> = None;
            loop
                invariant_except_break
                    found is None,
                    self.wf(),
                invariant
                    self.spec_color_mode() == start.spec_color_mode(),
                    ct == image.content_type,
                    image.width > 0 && image.height > 0,
                    !has_key(self.mask().entries(), key),
                    !has_key(self.color().entries(), key),
                    ct is Color ==> self.mask() == start.mask(),
                    ct is Mask ==> self.color() == start.color(),
                    self.plane(ct).in_use() == start.plane(ct).in_use(),
                    self.plane(ct).spec_kind() == start.plane(ct).spec_kind(),
                    self.plane(ct).spec_max_size() == start.plane(ct).spec_max_size(),
                    self.plane(ct).spec_size() >= start.plane(ct).spec_size(),
                    self.plane(ct).core_wf(),
                    start.wf(),
                    start.plane(ct).entries().len() < usize::MAX,
                    !grew ==> self.plane(ct).spec_size() == start.plane(ct).spec_size(),
                    forall|k: GlyphonCacheKey|
                        #[trigger] has_key(self.plane(ct).entries(), k) ==> has_key(
                            start.plane(ct).entries(),
                            k,
                        ) && lookup(self.plane(ct).entries(), k) == lookup(start.plane(ct).entries(), k),
                    forall|k: GlyphonCacheKey|
                        #[trigger] has_key(start.plane(ct).entries(), k) && !has_key(self.plane(ct).entries(), k)
                            ==> !start.plane(ct).in_use().contains(k) && lookup(
                            start.plane(ct).entries(),
                            k,
                        ).unwrap().atlas_id is Some,
                    start == *old(self),
                ensures
                    found matches Some((id, x, y)) && self.plane(ct).is_fresh_allocation(id)
                        && self.plane(ct).live_held_except(Some(id))
                        && self.plane(ct).allocated_rect(id) == (x as int, y as int, image.width as int, image.height as int)
                        && x + image.width <= self.plane(ct).spec_size() && y + image.height
                        <= self.plane(ct).spec_size(),
                decreases self.plane(ct).spec_max_size() - self.plane(ct).spec_size(),
            {
                let ghost before = *self;
                let a = match ct {
                    ContentType::Mask => self.mask_atlas.try_allocate(image.width, image.height),
                    ContentType::Color => self.color_atlas.try_allocate(image.width, image.height),
                };
                proof {
                    let bs = before.plane(ct).entries();
                    let ss = self.plane(ct).entries();
                    let st = start.plane(ct).entries();
                    assert forall|k: GlyphonCacheKey| #[trigger] has_key(ss, k) implies has_key(st, k)
                        && lookup(ss, k) == lookup(st, k) by {
                        assert(has_key(bs, k));
                    }
                    assert forall|k: GlyphonCacheKey| #[trigger] has_key(st, k) && !has_key(ss, k) implies
                        !start.plane(ct).in_use().contains(k) && lookup(st, k).unwrap().atlas_id is Some by {
                        if has_key(bs, k) {
                            assert(lookup(bs, k) == lookup(st, k));
                        }
                    }
                }
                if a.is_some() {
                    found = a;
                    break;
                }
                proof {
                    let ss = self.plane(ct).entries();
                    assert forall|k: GlyphonCacheKey|
                        !(#[trigger] has_key(self.color().entries(), k) && has_key(self.mask().entries(), k)) by {
                        if has_key(ss, k) {
                            assert(has_key(before.plane(ct).entries(), k));
                        }
                    }
                }
                if !self.grow(ct) {
                    return Err(PrepareError::AtlasFull);
                }
                grew = true;
            }
            let (id, x, y) = match found {
                Some(f) => f,
                None => return Err(PrepareError::AtlasFull),
            };
            let details = GlyphDetails {
                width: image.width,
                height: image.height,
                gpu_cache: GpuCacheStatus::InAtlas { x, y, content_type: ct },
                atlas_id: Some(id),
                top: image.top,
                left: image.left,
            };
            let ghost before_put = *self;
            proof {
                assert(self.plane(ct).entries().len() <= start.plane(ct).entries().len()) by {
                    lemma_keys_bound(start.plane(ct).entries(), self.plane(ct).entries());
                }
            }
            match ct {
                ContentType::Mask => self.mask_atlas.put(key, details),
                ContentType::Color => self.color_atlas.put(key, details),
            }
            proof {
                Self::lemma_put_keeps_disjoint(&before_put, self, key, details, ct);
            }
            Ok(InsertedGlyph { details, plane_grew: grew })
        } else {
            let details = GlyphDetails {
                width: image.width,
                height: image.height,
                gpu_cache: GpuCacheStatus::SkipRasterization,
                atlas_id: None,
                top: image.top,
                left: image.left,
            };
            if self.color_atlas.len() == usize::MAX {
                return Err(PrepareError::AtlasFull);
            }
            self.color_atlas.put(key, details);
            proof {
                Self::lemma_put_keeps_disjoint(&start, self, key, details, ContentType::Color);
            }
            Ok(InsertedGlyph { details, plane_grew: false })
        }
    }

    proof fn lemma_put_keeps_disjoint(
        a: &Self,
        b: &Self,
        key: GlyphonCacheKey,
        d: GlyphDetails,
        ct: ContentType,
    )
        requires
            a.color().core_wf(),
            a.mask().core_wf(),
            a.color().spec_kind() is Color,
            a.mask().spec_kind() is Mask,
            ct is Color ==> a.mask().wf(),
            ct is Mask ==> a.color().wf(),
            forall|k: GlyphonCacheKey|
                !(#[trigger] has_key(a.color().entries(), k) && has_key(a.mask().entries(), k)),
            !has_key(a.mask().entries(), key),
            !has_key(a.color().entries(), key),
            b.plane(ct).wf(),
            b.plane(ct).entries() == a.plane(ct).entries().push((key, d)),
            b.plane(ct).spec_kind() == a.plane(ct).spec_kind(),
            ct is Color ==> b.mask() == a.mask(),
            ct is Mask ==> b.color() == a.color(),
        ensures
            b.wf(),
            b.spec_glyph(key) == Some(d),
            forall|k: GlyphonCacheKey|
                #[trigger] has_key(b.plane(ct).entries(), k) && k != key ==> has_key(a.plane(ct).entries(), k)
                    && lookup(b.plane(ct).entries(), k) == lookup(a.plane(ct).entries(), k),
            forall|k: GlyphonCacheKey|
                #[trigger] has_key(a.plane(ct).entries(), k) ==> has_key(b.plane(ct).entries(), k),
    {
        let s = a.plane(ct).entries();
        let t = b.plane(ct).entries();
        assert forall|k: GlyphonCacheKey| has_key(t, k) implies has_key(s, k) || k == key by {
            let i = choose|i: int| 0 <= i < t.len() && (#[trigger] t[i]).0 == k;
            if i < s.len() {
                assert(t[i] == s[i]);
            }
        }
        assert forall|k: GlyphonCacheKey| #[trigger] has_key(s, k) implies has_key(t, k) by {
            let i = choose|i: int| 0 <= i < s.len() && (#[trigger] s[i]).0 == k;
            assert(t[i] == s[i]);
        }
        lemma_lookup_at(t, s.len() as int);
        assert forall|k: GlyphonCacheKey| #[trigger] has_key(t, k) && k != key implies has_key(s, k) && lookup(
            t,
            k,
        ) == lookup(s, k) by {
            lemma_push_lookup(s, key, d, k);
        }
        assert forall|k: GlyphonCacheKey|
            !(#[trigger] has_key(b.color().entries(), k) && has_key(b.mask().entries(), k)) by {
            if has_key(b.color().entries(), k) && has_key(b.mask().entries(), k) {
                assert(has_key(a.color().entries(), k) && has_key(a.mask().entries(), k));
            }
        }
        if ct is Color {
            assert(lookup(b.mask().entries(), key) is None);
        }
    }
}

/// Every key of `t` is a key of `s`, and both have distinct keys: `t` is no longer.
pub proof fn lemma_keys_bound(s: Seq<Entry>, t: Seq<Entry>)
    requires
        keys_distinct(s),
        keys_distinct(t),
        forall|k: GlyphonCacheKey| #[trigger] has_key(t, k) ==> has_key(s, k),
    ensures
        t.len() <= s.len(),
{
    let ks = s.map_values(|e: Entry| e.0);
    let kt = t.map_values(|e: Entry| e.0);
    assert forall|i: int, j: int| 0 <= i < kt.len() && 0 <= j < kt.len() && i != j implies kt[i] != kt[j] by {}
    assert forall|x: GlyphonCacheKey| kt.to_set().contains(x) implies ks.to_set().contains(x) by {
        let i = choose|i: int| 0 <= i < kt.len() && kt[i] == x;
        assert(t[i].0 == x);
        assert(has_key(t, x));
        let j = choose|j: int| 0 <= j < s.len() && (#[trigger] s[j]).0 == x;
        assert(ks[j] == x);
    }
    kt.unique_seq_to_set();
    ks.lemma_cardinality_of_set();
    vstd::set_lib::lemma_len_subset(kt.to_set(), ks.to_set());
}

/// Two sequences that hold the same entries have the same keys.
pub proof fn lemma_same_contents_same_keys(s: Seq<Entry>, t: Seq<Entry>)
    requires
        forall|e: Entry| t.contains(e) <==> s.contains(e),
    ensures
        forall|k: GlyphonCacheKey| has_key(t, k) <==> has_key(s, k),
{
    assert forall|k: GlyphonCacheKey| has_key(t, k) <==> has_key(s, k) by {
        if has_key(t, k) {
            let i = choose|i: int| 0 <= i < t.len() && (#[trigger] t[i]).0 == k;
            assert(t.contains(t[i]));
            let j = choose|j: int| 0 <= j < s.len() && s[j] == t[i];
            assert(s[j].0 == k);
        }
        if has_key(s, k) {
            let i = choose|i: int| 0 <= i < s.len() && (#[trigger] s[i]).0 == k;
            assert(s.contains(s[i]));
            let j = choose|j: int| 0 <= j < t.len() && t[j] == s[i];
            assert(t[j].0 == k);
        }
    }
}

/// Appending an entry under a new key keeps what every other key finds.
pub proof fn lemma_push_lookup(s: Seq<Entry>, key: GlyphonCacheKey, d: GlyphDetails, k: GlyphonCacheKey)
    requires
        keys_distinct(s),
        !has_key(s, key),
        k != key || has_key(s, k),
    ensures
        lookup(s.push((key, d)), k) == lookup(s, k),
{
    let t = s.push((key, d));
    if has_key(s, k) {
        let i = choose|i: int| 0 <= i < s.len() && (#[trigger] s[i]).0 == k;
        lemma_lookup_at(s, i);
        assert(t[i] == s[i]);
        assert(keys_distinct(t)) by {
            assert forall|p: int, q: int| 0 <= p < t.len() && 0 <= q < t.len() && p != q implies t[p].0
                != t[q].0 by {
                if p < s.len() && q < s.len() {
                    assert(t[p] == s[p] && t[q] == s[q]);
                } else if p < s.len() {
                    assert(t[p] == s[p]);
                } else {
                    assert(t[q] == s[q]);
                }
            }
        }
        lemma_lookup_at(t, i);
    } else {
        assert(!has_key(t, k)) by {
            if has_key(t, k) {
                let i = choose|i: int| 0 <= i < t.len() && (#[trigger] t[i]).0 == k;
                if i < s.len() {
                    assert(t[i] == s[i]);
                }
            }
        }
    }
}


/// `after` is `before` with the in-use marks of both planes cleared.
pub open spec fn trimmed(before: TextAtlas, after: TextAtlas) -> bool {
    &&& after.mask().in_use() == Set::<GlyphonCacheKey>::empty()
    &&& after.color().in_use() == Set::<GlyphonCacheKey>::empty()
    &&& same_but_marks(before.mask(), after.mask())
    &&& same_but_marks(before.color(), after.color())
    &&& after.spec_color_mode() == before.spec_color_mode()
}

/// Two planes differ at most in their in-use marks: same kind, packer, cached glyphs in
/// the same order, and sizes.
pub open spec fn same_but_marks(a: InnerAtlas, b: InnerAtlas) -> bool {
    &&& b.spec_kind() == a.spec_kind()
    &&& b.spec_packer() == a.spec_packer()
    &&& b.entries() == a.entries()
    &&& b.spec_size() == a.spec_size()
    &&& b.spec_max_size() == a.spec_max_size()
}

/// Trimming twice in a row with nothing in between: the second trim changes nothing
/// that can be observed.
pub proof fn lemma_trim_twice_is_trim_once(first: TextAtlas, second: TextAtlas, third: TextAtlas)
    requires
        trimmed(first, second),
        trimmed(second, third),
    ensures
        same_but_marks(second.mask(), third.mask()),
        same_but_marks(second.color(), third.color()),
        third.mask().in_use() == second.mask().in_use(),
        third.color().in_use() == second.color().in_use(),
        third.spec_color_mode() == second.spec_color_mode(),
        forall|k: GlyphonCacheKey| third.spec_glyph(k) == second.spec_glyph(k),
        forall|w: u16, h: u16| third.mask().fits(w, h) == second.mask().fits(w, h),
        forall|w: u16, h: u16| third.color().fits(w, h) == second.color().fits(w, h),
{
    assert forall|w: u16, h: u16| third.mask().fits(w, h) == second.mask().fits(w, h) by {
        assert(packer_fits(third.mask().spec_packer(), w, h) == third.mask().fits(w, h));
    }
    assert forall|w: u16, h: u16| third.color().fits(w, h) == second.color().fits(w, h) by {
        assert(packer_fits(third.color().spec_packer(), w, h) == third.color().fits(w, h));
    }
}

/// Growing a plane keeps every cached glyph where it was: each key finds the same
/// details afterwards, so each bitmap uploaded again into the new texture goes to the
/// place its glyph reports.
pub proof fn lemma_growth_preserves_content(before: TextAtlas, after: TextAtlas, content_type: ContentType)
    requires
        after.plane(content_type).entries() == before.plane(content_type).entries(),
        content_type is Color ==> after.mask() == before.mask(),
        content_type is Mask ==> after.color() == before.color(),
    ensures
        forall|k: GlyphonCacheKey| after.spec_glyph(k) == before.spec_glyph(k),
        forall|e: Entry|
            before.plane(content_type).entries().contains(e) && e.1.gpu_cache is InAtlas
                ==> after.plane(content_type).entries().contains(e),
{
}

/// One step of a batch that inserts a new glyph never takes away a glyph marked in use:
/// in either plane it stays marked and keeps its details. Over a whole batch of hits and
/// insertions, glyphs drawn earlier in it are therefore never evicted.
pub proof fn lemma_insertion_keeps_marked_glyphs(
    before: TextAtlas,
    after: TextAtlas,
    key: GlyphonCacheKey,
    image: GlyphImageInfo,
    r: Result<InsertedGlyph, PrepareError>,
    plane: ContentType,
    k: GlyphonCacheKey,
)
    requires
        before.wf(),
        after.wf(),
        before.spec_glyph(key) is None,
        insertion(before, after, key, image, r),
        before.plane(plane).in_use().contains(k),
        has_key(before.plane(plane).entries(), k),
    ensures
        after.plane(plane).in_use().contains(k),
        has_key(after.plane(plane).entries(), k),
        lookup(after.plane(plane).entries(), k) == lookup(before.plane(plane).entries(), k),
{
    let ct = image.content_type;
    let rasterized = image.width > 0 && image.height > 0;
    assert(k != key) by {
        if k == key {
            let s = before.plane(plane).entries();
            let i = choose|i: int| 0 <= i < s.len() && (#[trigger] s[i]).0 == k;
            lemma_lookup_at(s, i);
        }
    }
    if plane == ct {
        assert(has_key(after.plane(ct).entries(), k));
    } else if r is Ok && !rasterized && plane is Color {
        lemma_push_lookup(before.color().entries(), key, r->Ok_0.details, k);
        let s = before.color().entries();
        let i = choose|i: int| 0 <= i < s.len() && (#[trigger] s[i]).0 == k;
        assert(after.color().entries()[i] == s[i]);
    }
}

/// A cache hit never takes away a glyph marked in use: in either plane it stays marked
/// and keeps its details.
pub proof fn lemma_hit_keeps_marked_glyphs(
    before: TextAtlas,
    after: TextAtlas,
    key: GlyphonCacheKey,
    plane: ContentType,
    k: GlyphonCacheKey,
)
    requires
        before.wf(),
        after.wf(),
        promoted(before, after, key),
        before.plane(plane).in_use().contains(k),
        has_key(before.plane(plane).entries(), k),
    ensures
        after.plane(plane).in_use().contains(k),
        has_key(after.plane(plane).entries(), k),
        lookup(after.plane(plane).entries(), k) == lookup(before.plane(plane).entries(), k),
{
    let s = before.plane(plane).entries();
    let t = after.plane(plane).entries();
    if t != s {
        lemma_same_contents_same_keys(s, t);
        let i = choose|i: int| 0 <= i < s.len() && (#[trigger] s[i]).0 == k;
        lemma_lookup_at(s, i);
        assert(s.contains(s[i]));
        assert(t.contains(s[i]));
        let p = choose|p: int| 0 <= p < t.len() && t[p] == s[i];
        assert(keys_distinct(t));
        lemma_lookup_at(t, p);
    }
}

} // verus!
