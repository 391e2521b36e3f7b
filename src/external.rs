//! Declarations and wrappers for the crates the atlas relies on: etagere's
//! rectangle packer and lru's recency-ordered cache.

use crate::glyph::{rects_disjoint, GlyphDetails, GlyphonCacheKey, Rect};
use etagere::{AllocId, BucketedAtlasAllocator};
use lru::LruCache;
use rustc_hash::FxHasher;
use std::hash::BuildHasherDefault;
use vstd::prelude::*;

verus! {

#[verifier::external_type_specification]
#[verifier::external_body]
pub struct ExBucketedAtlasAllocator(BucketedAtlasAllocator);

#[verifier::external_type_specification]
#[verifier::external_body]
pub struct ExAllocId(AllocId);

#[verifier::external_type_specification]
#[verifier::external_body]
pub struct ExFxHasher(FxHasher);

#[verifier::external_type_specification]
#[verifier::external_body]
#[verifier::reject_recursive_types(H)]
pub struct ExBuildHasherDefault<H>(BuildHasherDefault<H>);

#[verifier::external_type_specification]
#[verifier::external_body]
#[verifier::reject_recursive_types(K)]
#[verifier::reject_recursive_types(V)]
#[verifier::reject_recursive_types(S)]
pub struct ExLruCache<K, V, S>(LruCache<K, V, S>);

pub type Hasher = BuildHasherDefault<FxHasher>;

pub type GlyphCache = LruCache<GlyphonCacheKey, GlyphDetails, Hasher>;

/// The side length of the square canvas a packer was made with or grown to.
pub uninterp spec fn packer_size(p: BucketedAtlasAllocator) -> int;

/// The allocations a packer currently holds.
pub uninterp spec fn packer_live(p: BucketedAtlasAllocator) -> Set<AllocId>;

/// For each live allocation, its corner and the size that was asked for (the packer may
/// reserve a taller rectangle, which contains this one).
pub uninterp spec fn packer_rects(p: BucketedAtlasAllocator) -> Map<AllocId, Rect>;

/// Whether a packer would accept a `width` by `height` request as it stands.
pub uninterp spec fn packer_fits(p: BucketedAtlasAllocator, width: u16, height: u16) -> bool;

/// The entries of a glyph cache, from the least recently used to the most recently used.
pub uninterp spec fn cache_entries(c: GlyphCache) -> Seq<(GlyphonCacheKey, GlyphDetails)>;

/// Relies on etagere's `BucketedAtlasAllocator::new`: an empty packer over a square
/// canvas (it asserts that each side is below `u16::MAX`); its first request of a
/// non-empty size up to the canvas adds a shelf and succeeds. Sides are kept to at most
/// `0xFFC0`, so that rounding a request's height up to a shelf height cannot overflow.
#[verifier::external_body]
pub fn packer_new(size: u16) -> (r: BucketedAtlasAllocator)
    requires
        size <= 0xFFC0,
    ensures
        packer_size(r) == size,
        packer_live(r) == Set::<AllocId>::empty(),
        packer_rects(r).dom() == Set::<AllocId>::empty(),
        forall|w: u16, h: u16| 0 < w <= size && 0 < h <= size ==> #[trigger] packer_fits(r, w, h),
{
    BucketedAtlasAllocator::new(etagere::size2(size as i32, size as i32))
}

/// Relies on etagere's `BucketedAtlasAllocator::allocate`: on success a new
/// allocation whose rectangle starts at the returned corner, lies inside the canvas and
/// overlaps no live allocation;
/// a refused request leaves the packer as it was (no shelf is added or coalesced).
#[verifier::external_body]
pub fn packer_allocate(p: &mut BucketedAtlasAllocator, width: u16, height: u16) -> (r: Option<
    (AllocId, u16, u16),
>)
    ensures
        packer_size(*final(p)) == packer_size(*old(p)),
        r is Some <==> packer_fits(*old(p), width, height),
        match r {
            Some((id, x, y)) => {
                &&& !packer_live(*old(p)).contains(id)
                &&& packer_live(*final(p)) == packer_live(*old(p)).insert(id)
                &&& packer_rects(*final(p)) == packer_rects(*old(p)).insert(
                    id,
                    (x as int, y as int, width as int, height as int),
                )
                &&& forall|other: AllocId|
                    #[trigger] packer_rects(*old(p)).contains_key(other) ==> rects_disjoint(
                        packer_rects(*old(p))[other],
                        (x as int, y as int, width as int, height as int),
                    )
                &&& x + width <= packer_size(*old(p))
                &&& y + height <= packer_size(*old(p))
            },
            None => *final(p) == *old(p),
        },
{
    p.allocate(etagere::size2(width as i32, height as i32)).map(
        |a| (a.id, a.rectangle.min.x as u16, a.rectangle.min.y as u16),
    )
}

/// Relies on etagere's `BucketedAtlasAllocator::deallocate`: frees a live allocation
/// (it asserts that the id belongs to a live allocation).
#[verifier::external_body]
pub fn packer_deallocate(p: &mut BucketedAtlasAllocator, id: AllocId)
    requires
        packer_live(*old(p)).contains(id),
    ensures
        packer_size(*final(p)) == packer_size(*old(p)),
        packer_live(*final(p)) == packer_live(*old(p)).remove(id),
        packer_rects(*final(p)) == packer_rects(*old(p)).remove(id),
{
    p.deallocate(id)
}

/// Relies on etagere's `BucketedAtlasAllocator::grow`: enlarges the canvas and keeps
/// every allocation (it asserts the new side is below `u16::MAX` and not smaller; sides
/// are kept to at most `0xFFC0`, as for `packer_new`).
#[verifier::external_body]
pub fn packer_grow(p: &mut BucketedAtlasAllocator, size: u16)
    requires
        size <= 0xFFC0,
        size >= packer_size(*old(p)),
    ensures
        packer_size(*final(p)) == size,
        packer_live(*final(p)) == packer_live(*old(p)),
        packer_rects(*final(p)) == packer_rects(*old(p)),
{
    p.grow(etagere::size2(size as i32, size as i32))
}

/// Relies on lru's `LruCache::unbounded_with_hasher`: an empty cache.
#[verifier::external_body]
pub fn cache_new() -> (r: GlyphCache)
    ensures
        cache_entries(r) == Seq::<(GlyphonCacheKey, GlyphDetails)>::empty(),
{
    LruCache::unbounded_with_hasher(Hasher::default())
}

/// Relies on lru's `LruCache::len`: the number of entries.
#[verifier::external_body]
pub fn cache_len(c: &GlyphCache) -> (r: usize)
    ensures
        r == cache_entries(*c).len(),
{
    c.len()
}

/// Relies on lru's `LruCache::peek`: the value stored under a key, without touching
/// the recency order.
#[verifier::external_body]
pub fn cache_peek(c: &GlyphCache, k: &GlyphonCacheKey) -> (r: Option<GlyphDetails>)
    ensures
        match r {
            Some(v) => cache_entries(*c).contains((*k, v)),
            None => forall|i: int|
                0 <= i < cache_entries(*c).len() ==> (#[trigger] cache_entries(*c)[i]).0 != *k,
        },
{
    c.peek(k).copied()
}

/// Relies on lru's `LruCache::pop`: removes the entry of a key, wherever it stands, and
/// returns its value; a key that is absent changes nothing.
#[verifier::external_body]
pub fn cache_pop(c: &mut GlyphCache, k: &GlyphonCacheKey) -> (r: Option<GlyphDetails>)
    ensures
        forall|i: int|
            0 <= i < cache_entries(*old(c)).len() && (#[trigger] cache_entries(*old(c))[i]).0 == *k
                ==> r == Some(cache_entries(*old(c))[i].1) && cache_entries(*final(c))
                == cache_entries(*old(c)).remove(i),
        (forall|i: int|
            0 <= i < cache_entries(*old(c)).len() ==> (#[trigger] cache_entries(*old(c))[i]).0
                != *k) ==> r is None && cache_entries(*final(c)) == cache_entries(*old(c)),
{
    c.pop(k)
}

/// Relies on lru's `LruCache::promote`: moves the entry of a key to the most recently
/// used end; a key that is absent changes nothing.
#[verifier::external_body]
pub fn cache_promote(c: &mut GlyphCache, k: &GlyphonCacheKey)
    ensures
        forall|i: int|
            0 <= i < cache_entries(*old(c)).len() && (#[trigger] cache_entries(*old(c))[i]).0 == *k
                ==> cache_entries(*final(c)) == cache_entries(*old(c)).remove(i).push(
                cache_entries(*old(c))[i],
            ),
        (forall|i: int|
            0 <= i < cache_entries(*old(c)).len() ==> (#[trigger] cache_entries(*old(c))[i]).0
                != *k) ==> cache_entries(*final(c)) == cache_entries(*old(c)),
{
    c.promote(k)
}

/// Relies on lru's `LruCache::put` for a key that is not cached yet: an unbounded cache
/// evicts nothing below `usize::MAX` entries, and the new entry is the most recently used.
#[verifier::external_body]
pub fn cache_put(c: &mut GlyphCache, k: GlyphonCacheKey, v: GlyphDetails)
    requires
        cache_entries(*old(c)).len() < usize::MAX,
        forall|i: int|
            0 <= i < cache_entries(*old(c)).len() ==> (#[trigger] cache_entries(*old(c))[i]).0 != k,
    ensures
        cache_entries(*final(c)) == cache_entries(*old(c)).push((k, v)),
{
    c.put(k, v);
}

/// Relies on lru's `LruCache::iter`: every entry, from the most recently used to the
/// least recently used.
#[verifier::external_body]
pub fn cache_entries_newest_first(c: &GlyphCache) -> (r: Vec<(GlyphonCacheKey, GlyphDetails)>)
    ensures
        r@ == cache_entries(*c).reverse(),
{
    c.iter().map(|(k, v)| (*k, *v)).collect()
}

} // verus!
