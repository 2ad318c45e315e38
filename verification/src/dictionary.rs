//! The dictionary builder: partitions a tile-source listing into cached and
//! pending work, lets independent chunks process pending tiles, and merges
//! the results into the queryable Color Index.
//!
//! Directory listing, image decoding and file writes are the caller's; the
//! reader works on the listed identities and the decoded pixel grids it is
//! handed.

use vstd::prelude::*;
use crate::cache::{CacheEntry, EntryModel, models_of, mapping_encodable, bytes_eq, encode, enc};
use crate::color::{LinColor, dist2, mean_of, mean_color, LINEAR_MAX};
use crate::errors::MosaicError;
use crate::grid::{PixelGrid, raw_of, resized_raw};

verus! {

/// One tile of the mosaic dictionary: its identity (path relative to the
/// source root), its representative color, and — when it was decoded this
/// run — its pixel buffer at the run's shared tile size.
#[derive(Debug)]
pub struct Tile {
    pub identity: Vec<u8>,
    pub color: LinColor,
    pub pixels: Option<PixelGrid>,
}

/// The views of a sequence of identities.
pub open spec fn ids_view(s: Seq<Vec<u8>>) -> Seq<Seq<u8>> {
    s.map_values(|v: Vec<u8>| v@)
}

/// The name of the cache sidecar file inside the tile source, which the
/// listing must not treat as a tile: the bytes of `dictionary_cache.bin`.
pub open spec fn cache_file_name_spec() -> Seq<u8> {
    seq![
        100u8,
        105u8,
        99u8,
        116u8,
        105u8,
        111u8,
        110u8,
        97u8,
        114u8,
        121u8,
        95u8,
        99u8,
        97u8,
        99u8,
        104u8,
        101u8,
        46u8,
        98u8,
        105u8,
        110u8,
    ]
}

/// The cache sidecar's file name, as bytes.
pub fn cache_file_name() -> (r: Vec<u8>)
    ensures
        r@ == cache_file_name_spec(),
{
    let mut v: Vec<u8> = Vec::new();
    v.push(100u8);
    v.push(105u8);
    v.push(99u8);
    v.push(116u8);
    v.push(105u8);
    v.push(111u8);
    v.push(110u8);
    v.push(97u8);
    v.push(114u8);
    v.push(121u8);
    v.push(95u8);
    v.push(99u8);
    v.push(97u8);
    v.push(99u8);
    v.push(104u8);
    v.push(101u8);
    v.push(46u8);
    v.push(98u8);
    v.push(105u8);
    v.push(110u8);
    proof {
        assert(v@ =~= cache_file_name_spec());
    }
    v
}

/// Whether `id` names a tile that still has to be decoded: it is not the
/// cache sidecar and the cache does not know it.
pub open spec fn is_pending(id: Seq<u8>, cache_ids: Seq<Seq<u8>>) -> bool {
    id != cache_file_name_spec() && !cache_ids.contains(id)
}

/// The pending part of a listing: the identities the cache cannot serve, in
/// listing order.
pub open spec fn pending_of(listing: Seq<Seq<u8>>, cache_ids: Seq<Seq<u8>>) -> Seq<Seq<u8>>
    decreases listing.len(),
{
    if listing.len() == 0 {
        Seq::empty()
    } else {
        pending_of(listing.drop_last(), cache_ids) + (if is_pending(
            listing.last(),
            cache_ids,
        ) {
            seq![listing.last()]
        } else {
            Seq::empty()
        })
    }
}

/// The cache entries whose backing file is still listed, in cache order:
/// entries for deleted tiles are pruned.
pub open spec fn pruned_of(ms: Seq<EntryModel>, listing: Seq<Seq<u8>>) -> Seq<EntryModel>
    decreases ms.len(),
{
    if ms.len() == 0 {
        Seq::empty()
    } else {
        pruned_of(ms.drop_last(), listing) + (if listing.contains(ms.last().0) {
            seq![ms.last()]
        } else {
            Seq::empty()
        })
    }
}

/// Whether `ids` holds a byte string equal to `id`.
fn contains_id(ids: &Vec<Vec<u8>>, id: &Vec<u8>) -> (r: bool)
    ensures
        r <==> ids_view(ids@).contains(id@),
{
    let n = ids.len();
    let mut i: usize = 0;
    while i < n
        invariant
            i <= n,
            n == ids@.len(),
            forall|k: int| 0 <= k < i ==> ids_view(ids@)[k] != id@,
        decreases n - i,
    {
        if bytes_eq(&ids[i], id) {
            proof {
                assert(ids_view(ids@)[i as int] == id@);
            }
            return true;
        }
        i = i + 1;
    }
    proof {
        if ids_view(ids@).contains(id@) {
            let w = choose|k: int| 0 <= k < ids_view(ids@).len() && ids_view(ids@)[k] == id@;
            assert(ids_view(ids@)[w] != id@);
        }
    }
    false
}

/// A copy of a byte string.
fn clone_bytes(b: &Vec<u8>) -> (r: Vec<u8>)
    ensures
        r@ == b@,
{
    let n = b.len();
    let mut out: Vec<u8> = Vec::new();
    let mut i: usize = 0;
    while i < n
        invariant
            i <= n,
            n == b@.len(),
            out@ == b@.take(i as int),
        decreases n - i,
    {
        out.push(b[i]);
        proof {
            assert(b@.take(i as int).push(b@[i as int]) =~= b@.take(i + 1));
        }
        i = i + 1;
    }
    proof {
        assert(b@.take(n as int) =~= b@);
    }
    out
}

/// Scans a tile source's listing against the loaded cache: what the cache
/// serves is kept as colors; everything else is pending decode work.
#[derive(Debug)]
pub struct ImageDictionaryReader {
    /// The shared output size of tile pixel buffers in this run.
    pub images_size: (u32, u32),
    /// Identities that must still be decoded, in listing order.
    pub pending: Vec<Vec<u8>>,
    /// Cache entries whose backing file is still listed.
    pub cached: Vec<CacheEntry>,
}

impl ImageDictionaryReader {
    /// Colors served by the cache stay within the linear range.
    pub open spec fn wf(self) -> bool {
        forall|i: int| 0 <= i < self.cached@.len()
            ==> (#[trigger] self.cached@[i]).color.in_range()
    }

    /// Opens a dictionary over a tile source. `listing` holds the names of
    /// the regular files under the source root; `cache` is the loaded cache
    /// mapping (empty when no cache file existed). Files the cache knows are
    /// partitioned as already cached; cache entries whose file is gone are
    /// pruned; the cache sidecar file itself is never a tile.
    pub fn open(listing: Vec<Vec<u8>>, cache: Vec<CacheEntry>, images_size: (u32, u32)) -> (r:
        ImageDictionaryReader)
        requires
            mapping_encodable(models_of(cache@)),
        ensures
            r.wf(),
            r.images_size == images_size,
            ids_view(r.pending@) == pending_of(
                ids_view(listing@),
                ids_view(cache_ids_of(cache@)),
            ),
            models_of(r.cached@) == pruned_of(models_of(cache@), ids_view(listing@)),
    {
        let ghost listing0 = listing;
        let ghost cache0 = cache;
        let sidecar = cache_file_name();
        let mut cache_ids: Vec<Vec<u8>> = Vec::new();
        let mut ci: usize = 0;
        let cn = cache.len();
        while ci < cn
            invariant
                ci <= cn,
                cn == cache@.len(),
                cache_ids@.len() == ci,
                forall|k: int| 0 <= k < ci ==> cache_ids@[k]@ == cache@[k].identity@,
            decreases cn - ci,
        {
            let idc = clone_bytes(&cache[ci].identity);
            cache_ids.push(idc);
            ci = ci + 1;
        }
        proof {
            assert(ids_view(cache_ids@) =~= ids_view(cache_ids_of(cache@)));
        }
        let mut listing = listing;
        let mut pending: Vec<Vec<u8>> = Vec::new();
        let mut i: usize = 0;
        let n = listing.len();
        while i < n
            invariant
                i <= n,
                n == listing@.len(),
                listing@ == listing0@,
                sidecar@ == cache_file_name_spec(),
                ids_view(cache_ids@) == ids_view(cache_ids_of(cache0@)),
                ids_view(pending@) == pending_of(
                    ids_view(listing0@.take(i as int)),
                    ids_view(cache_ids_of(cache0@)),
                ),
            decreases n - i,
        {
            let id = clone_bytes(&listing[i]);
            let keep = if bytes_eq(&id, &sidecar) {
                false
            } else {
                !contains_id(&cache_ids, &id)
            };
            let ghost pend0 = pending@;
            let ghost s1 = ids_view(listing0@.take(i + 1));
            let ghost cids = ids_view(cache_ids_of(cache0@));
            proof {
                assert(s1.drop_last() =~= ids_view(listing0@.take(i as int)));
                assert(s1.last() == listing0@[i as int]@);
                assert(id@ == listing0@[i as int]@);
                assert(keep == is_pending(s1.last(), cids));
                assert(pending_of(s1, cids) == pending_of(s1.drop_last(), cids) + (
                if is_pending(s1.last(), cids) {
                    seq![s1.last()]
                } else {
                    Seq::empty()
                }));
            }
            if keep {
                pending.push(id);
                proof {
                    assert(ids_view(pend0.push(id)) =~= ids_view(pend0).push(id@));
                    assert(ids_view(pending@) =~= pending_of(s1, cids));
                }
            } else {
                proof {
                    assert(ids_view(pending@) =~= pending_of(s1, cids));
                }
            }
            i = i + 1;
        }
        proof {
            assert(listing0@.take(n as int) =~= listing0@);
        }
        let mut cached: Vec<CacheEntry> = Vec::new();
        let mut j: usize = 0;
        let mut cache = cache;
        while j < cn
            invariant
                j <= cn,
                cn == cache0@.len(),
                mapping_encodable(models_of(cache0@)),
                cache@.len() == cn - j,
                forall|k: int| 0 <= k < cn - j ==> cache@[k] == cache0@[j + k],
                listing@ == listing0@,
                models_of(cached@) == pruned_of(
                    models_of(cache0@.take(j as int)),
                    ids_view(listing0@),
                ),
                forall|k: int| 0 <= k < cached@.len() ==> (#[trigger] cached@[k]).color
                    .in_range(),
            decreases cn - j,
        {
            let e = cache.remove(0);
            proof {
                assert(e == cache0@[j as int]);
                assert(models_of(cache0@.take(j + 1)).drop_last() =~= models_of(
                    cache0@.take(j as int),
                ));
                assert(models_of(cache0@.take(j + 1)).last() == cache0@[j as int].model());
                assert(crate::cache::entry_encodable(models_of(cache0@)[j as int]));
                assert(models_of(cache0@)[j as int].1 == cache0@[j as int].color);
            }
            let keep = contains_id(&listing, &e.identity);
            if keep {
                cached.push(e);
                proof {
                    assert(models_of(cached@) =~= pruned_of(
                        models_of(cache0@.take(j + 1)),
                        ids_view(listing0@),
                    ));
                }
            } else {
                proof {
                    assert(models_of(cached@) =~= pruned_of(
                        models_of(cache0@.take(j + 1)),
                        ids_view(listing0@),
                    ));
                }
            }
            j = j + 1;
        }
        proof {
            assert(cache0@.take(cn as int) =~= cache0@);
        }
        ImageDictionaryReader { images_size, pending, cached }
    }

    /// How many tiles this run will know in all: pending plus cached.
    pub fn len(&self) -> (r: usize)
        requires
            self.pending@.len() + self.cached@.len() <= usize::MAX,
        ensures
            r == self.pending@.len() + self.cached@.len(),
    {
        self.pending.len() + self.cached.len()
    }

    /// How many tiles still need to be decoded.
    pub fn unprocessed_len(&self) -> (r: usize)
        ensures
            r == self.pending@.len(),
    {
        self.pending.len()
    }

    /// Splits the pending work into chunks of at most `chunk_size`
    /// identities, contiguous and non-overlapping, in listing order; the
    /// last chunk may be shorter. Chunks process independently and are
    /// merged back by `build_split`.
    pub fn split(&self, chunk_size: usize) -> (r: Vec<ImageDictionaryReaderChunk>)
        requires
            chunk_size > 0,
        ensures
            self.pending@.len() == 0 ==> r@.len() == 0,
            r@.len() * chunk_size >= self.pending@.len(),
            self.pending@.len() > 0 ==> (r@.len() - 1) * chunk_size < self.pending@.len(),
            forall|k: int|
                0 <= k < r@.len() ==> {
                    let lo = k * chunk_size;
                    let hi = if lo + chunk_size <= self.pending@.len() {
                        lo + chunk_size
                    } else {
                        self.pending@.len() as int
                    };
                    &&& (#[trigger] r@[k]).images_size == self.images_size
                    &&& r@[k].wf()
                    &&& r@[k].tiles@.len() == 0
                    &&& r@[k].failures@.len() == 0
                    &&& ids_view(r@[k].remaining@) == ids_view(self.pending@).subrange(
                        lo,
                        hi,
                    )
                },
    {
        let n = self.pending.len();
        let mut chunks: Vec<ImageDictionaryReaderChunk> = Vec::new();
        let mut start: usize = 0;
        proof {
            assert(0 * chunk_size == 0) by (nonlinear_arith);
        }
        while start < n
            invariant
                chunk_size > 0,
                n == self.pending@.len(),
                start <= n,
                start == chunks@.len() * chunk_size || start == n,
                chunks@.len() * chunk_size >= start,
                chunks@.len() == 0 ==> start == 0,
                chunks@.len() > 0 ==> (chunks@.len() - 1) * chunk_size < n,
                forall|k: int|
                    0 <= k < chunks@.len() ==> {
                        let lo = k * chunk_size;
                        let hi = if lo + chunk_size <= n {
                            lo + chunk_size
                        } else {
                            n as int
                        };
                        &&& (#[trigger] chunks@[k]).images_size == self.images_size
                        &&& chunks@[k].wf()
                        &&& chunks@[k].tiles@.len() == 0
                        &&& chunks@[k].failures@.len() == 0
                        &&& ids_view(chunks@[k].remaining@) == ids_view(
                            self.pending@,
                        ).subrange(lo, hi)
                    },
            decreases n - start,
        {
            let end: usize = if n - start < chunk_size {
                n
            } else {
                start + chunk_size
            };
            let mut remaining: Vec<Vec<u8>> = Vec::new();
            let mut j: usize = start;
            while j < end
                invariant
                    start <= j <= end <= n,
                    n == self.pending@.len(),
                    ids_view(remaining@) == ids_view(self.pending@).subrange(
                        start as int,
                        j as int,
                    ),
                decreases end - j,
            {
                let ghost rem0 = remaining@;
                let id = clone_bytes(&self.pending[j]);
                remaining.push(id);
                proof {
                    assert(ids_view(rem0.push(id)) =~= ids_view(rem0).push(id@));
                    assert(ids_view(remaining@) =~= ids_view(self.pending@).subrange(
                        start as int,
                        j + 1,
                    ));
                }
                j = j + 1;
            }
            let chunk = ImageDictionaryReaderChunk {
                images_size: self.images_size,
                remaining,
                tiles: Vec::new(),
                failures: Vec::new(),
            };
            proof {
                assert((chunks@.len() + 1) * chunk_size == chunks@.len() * chunk_size
                    + chunk_size) by (nonlinear_arith);
            }
            chunks.push(chunk);
            start = end;
        }
        proof {
            if n > 0 {
                assert(chunks@.len() * chunk_size >= n);
            } else {
                assert(chunks@.len() == 0) by {
                    if chunks@.len() > 0 {
                        assert((chunks@.len() - 1) * chunk_size >= 0) by (nonlinear_arith)
                            requires
                                chunks@.len() >= 1,
                                chunk_size > 0,
                        ;
                    }
                }
            }
        }
        chunks
    }
}

/// The chunks of `split` partition the pending list: contiguous,
/// non-overlapping, and together covering every pending identity exactly
/// once. Stated over any sequence cut into `cs`-sized contiguous parts with
/// a short tail, as `split` guarantees.
pub proof fn lemma_split_partitions(pending: Seq<Seq<u8>>, parts: Seq<Seq<Seq<u8>>>, cs: int)
    requires
        cs > 0,
        pending.len() == 0 ==> parts.len() == 0,
        parts.len() * cs >= pending.len(),
        pending.len() > 0 ==> (parts.len() - 1) * cs < pending.len(),
        forall|k: int|
            0 <= k < parts.len() ==> #[trigger] parts[k] == pending.subrange(
                k * cs,
                if k * cs + cs <= pending.len() {
                    k * cs + cs
                } else {
                    pending.len() as int
                },
            ),
    ensures
        concat_parts(parts) == pending,
    decreases parts.len(),
{
    if parts.len() == 0 {
        assert(pending.len() == 0) by {
            if pending.len() > 0 {
                assert(parts.len() * cs == 0) by (nonlinear_arith)
                    requires
                        parts.len() == 0,
                ;
            }
        }
        assert(concat_parts(parts) =~= pending);
    } else {
        let n = parts.len() - 1;
        let front = pending.take(n * cs);
        assert(0 <= n * cs <= pending.len()) by (nonlinear_arith)
            requires
                n == parts.len() - 1,
                parts.len() >= 1,
                cs > 0,
                pending.len() > 0 ==> (parts.len() - 1) * cs < pending.len(),
                pending.len() == 0 ==> parts.len() == 0,
        ;
        assert forall|k: int| 0 <= k < n implies #[trigger] parts.drop_last()[k]
            == front.subrange(
            k * cs,
            if k * cs + cs <= front.len() {
                k * cs + cs
            } else {
                front.len() as int
            },
        ) by {
            assert(k * cs + cs <= n * cs) by (nonlinear_arith)
                requires
                    k < n,
                    cs > 0,
            ;
            assert(0 <= k * cs) by (nonlinear_arith)
                requires
                    0 <= k,
                    cs > 0,
            ;
            assert(parts[k] == pending.subrange(k * cs, k * cs + cs));
            assert(front.subrange(k * cs, k * cs + cs) =~= pending.subrange(
                k * cs,
                k * cs + cs,
            ));
        }
        assert(n * cs >= front.len()) by (nonlinear_arith)
            requires
                front.len() == n * cs,
        ;
        assert(front.len() > 0 ==> (n - 1) * cs < front.len()) by (nonlinear_arith)
            requires
                front.len() == n * cs,
                cs > 0,
        ;
        assert(front.len() == 0 ==> n == 0) by (nonlinear_arith)
            requires
                front.len() == n * cs,
                cs > 0,
                n >= 0,
        ;
        lemma_split_partitions(front, parts.drop_last(), cs);
        assert(n * cs + cs >= pending.len()) by (nonlinear_arith)
            requires
                parts.len() * cs >= pending.len(),
                n == parts.len() - 1,
        ;
        assert(parts.last() == parts[n as int]);
        assert(parts.last() == pending.subrange(n * cs, pending.len() as int));
        assert(concat_parts(parts) == concat_parts(parts.drop_last()) + parts.last());
        assert(front + pending.subrange(n * cs, pending.len() as int) =~= pending);
    }
}

/// The identities of a run of chunks, concatenated in order.
pub open spec fn concat_parts(parts: Seq<Seq<Seq<u8>>>) -> Seq<Seq<u8>>
    decreases parts.len(),
{
    if parts.len() == 0 {
        Seq::empty()
    } else {
        concat_parts(parts.drop_last()) + parts.last()
    }
}

/// Whether every chunk belongs to a run with tile size `size` and carries
/// only tiles that fit it.
pub open spec fn chunks_consistent(cs: Seq<ImageDictionaryReaderChunk>, size: (u32, u32)) -> bool {
    forall|c: int| 0 <= c < cs.len() ==> (#[trigger] cs[c]).images_size == size && cs[c].wf()
}

/// Whether a tile fits a run with shared tile size `size`: its color is in
/// the linear range and its buffer, when it has one, has exactly that size.
pub open spec fn tile_ok(t: Tile, size: (u32, u32)) -> bool {
    &&& t.color.in_range()
    &&& match t.pixels {
        Some(g) => g.wf() && g.width == size.0 && g.height == size.1,
        None => true,
    }
}

/// One worker's share of the pending tiles. Chunks are processed
/// independently, each accumulating its own tiles and failures; no two
/// chunks share state.
#[derive(Debug)]
pub struct ImageDictionaryReaderChunk {
    /// The shared output size of tile pixel buffers in this run.
    pub images_size: (u32, u32),
    /// Identities assigned to this chunk and not yet processed, front first.
    pub remaining: Vec<Vec<u8>>,
    /// Tiles built so far, in processing order.
    pub tiles: Vec<Tile>,
    /// Identities whose image could not be decoded; recorded and skipped.
    pub failures: Vec<Vec<u8>>,
}

impl ImageDictionaryReaderChunk {
    /// Every accumulated tile fits the run.
    pub open spec fn wf(self) -> bool {
        forall|i: int| 0 <= i < self.tiles@.len() ==> tile_ok(
            #[trigger] self.tiles@[i],
            self.images_size,
        )
    }

    /// How many images remain to be processed in this chunk.
    pub fn len(&self) -> (r: usize)
        ensures
            r == self.remaining@.len(),
    {
        self.remaining.len()
    }

    /// The identity of the image to process next, for the caller to decode.
    pub fn next_identity(&self) -> (r: Option<&Vec<u8>>)
        ensures
            match r {
                Some(id) => self.remaining@.len() > 0 && id@ == self.remaining@[0]@,
                None => self.remaining@.len() == 0,
            },
    {
        if self.remaining.len() == 0 {
            None
        } else {
            Some(&self.remaining[0])
        }
    }

    /// Processes the chunk's next pending image, handed in decoded (`None`
    /// when decoding failed). On success the image's mean linear color and
    /// its buffer resized to the run's tile size are appended as a tile; a
    /// failure is recorded and skipped. Returns `false` once the chunk is
    /// exhausted.
    pub fn process_image(&mut self, decoded: Option<PixelGrid>) -> (r: bool)
        requires
            old(self).wf(),
            12 * (old(self).images_size.0 as int) * (old(self).images_size.1 as int)
                <= usize::MAX,
            match decoded {
                Some(g) => {
                    &&& g.wf()
                    &&& 3 * g.width * g.height <= usize::MAX
                    &&& 12 * (g.width as int) * (old(self).images_size.1 as int)
                        <= usize::MAX
                },
                None => true,
            },
        ensures
            final(self).wf(),
            final(self).images_size == old(self).images_size,
            old(self).remaining@.len() == 0 ==> r == false && *final(self) == *old(self),
            old(self).remaining@.len() > 0 ==> {
                &&& r == true
                &&& final(self).remaining@ == old(self).remaining@.drop_first()
                &&& match decoded {
                    Some(g) => if g.width > 0 && g.height > 0 {
                        &&& final(self).failures@ == old(self).failures@
                        &&& final(self).tiles@.len() == old(self).tiles@.len() + 1
                        &&& (forall|k: int|
                            0 <= k < old(self).tiles@.len()
                                ==> #[trigger] final(self).tiles@[k] == old(self).tiles@[k])
                        &&& final(self).tiles@.last().identity == old(self).remaining@[0]
                        &&& final(self).tiles@.last().color == mean_of(g.pixels@)
                        &&& match final(self).tiles@.last().pixels {
                            Some(b) => {
                                &&& b.wf()
                                &&& b.width == old(self).images_size.0
                                &&& b.height == old(self).images_size.1
                                &&& raw_of(b.pixels@) == resized_raw(
                                    raw_of(g.pixels@),
                                    g.width,
                                    g.height,
                                    old(self).images_size.0,
                                    old(self).images_size.1,
                                )
                            },
                            None => false,
                        }
                    } else {
                        &&& final(self).tiles@ == old(self).tiles@
                        &&& final(self).failures@ == old(self).failures@.push(
                            old(self).remaining@[0],
                        )
                    },
                    None => {
                        &&& final(self).tiles@ == old(self).tiles@
                        &&& final(self).failures@ == old(self).failures@.push(
                            old(self).remaining@[0],
                        )
                    },
                }
            },
    {
        if self.remaining.len() == 0 {
            return false;
        }
        let id = self.remaining.remove(0);
        proof {
            assert(self.remaining@ =~= old(self).remaining@.drop_first());
        }
        match decoded {
            None => {
                self.failures.push(id);
            },
            Some(g) => {
                if g.width == 0 || g.height == 0 {
                    self.failures.push(id);
                } else {
                    proof {
                        assert(g.pixels@.len() > 0) by (nonlinear_arith)
                            requires
                                g.pixels@.len() == g.width * g.height,
                                g.width > 0,
                                g.height > 0,
                        ;
                    }
                    let color = mean_color(&g.pixels).unwrap();
                    let buffer = g.resize(self.images_size.0, self.images_size.1);
                    self.tiles.push(Tile { identity: id, color, pixels: Some(buffer) });
                }
            },
        }
        true
    }
}

/// The identity vectors of a cache mapping.
pub open spec fn cache_ids_of(cache: Seq<CacheEntry>) -> Seq<Vec<u8>> {
    cache.map_values(|e: CacheEntry| e.identity)
}

/// Cache entries turned into color-only tiles (no pixel buffer).
pub open spec fn tiles_of_cached(cache: Seq<CacheEntry>) -> Seq<Tile> {
    cache.map_values(
        |e: CacheEntry| Tile { identity: e.identity, color: e.color, pixels: None },
    )
}

/// All tiles accumulated by a run of chunks, in chunk order.
pub open spec fn chunk_tiles_of(cs: Seq<ImageDictionaryReaderChunk>) -> Seq<Tile>
    decreases cs.len(),
{
    if cs.len() == 0 {
        Seq::empty()
    } else {
        chunk_tiles_of(cs.drop_last()) + cs.last().tiles@
    }
}

/// The finalized, read-only Color Index: every tile with its representative
/// color, queried by nearest color and never mutated after the merge.
#[derive(Debug)]
pub struct ImageDictionary {
    /// The shared size of the tiles' pixel buffers.
    pub images_size: (u32, u32),
    /// The tiles, in merge order: cached first, then each chunk's output.
    pub tiles: Vec<Tile>,
}

impl ImageDictionaryReader {
    /// Merges every chunk's output with the cached entries into the Color
    /// Index. Must only be called after all chunks are exhausted. A chunk
    /// built for another run's tile size — or a tile whose buffer does not
    /// match this run's — is rejected as `InconsistentTileSize`.
    #[verifier::loop_isolation(false)]
    pub fn build_split(self, chunks: Vec<ImageDictionaryReaderChunk>) -> (r: Result<
        ImageDictionary,
        MosaicError,
    >)
        requires
            self.wf(),
            forall|c: int| 0 <= c < chunks@.len() ==> (#[trigger] chunks@[c]).remaining@.len()
                == 0,
        ensures
            match r {
                Ok(d) => {
                    &&& d.images_size == self.images_size
                    &&& d.tiles@ == tiles_of_cached(self.cached@) + chunk_tiles_of(chunks@)
                    &&& forall|i: int| 0 <= i < d.tiles@.len() ==> tile_ok(
                        #[trigger] d.tiles@[i],
                        d.images_size,
                    )
                },
                Err(e) => {
                    &&& e == MosaicError::InconsistentTileSize
                    &&& !chunks_consistent(chunks@, self.images_size)
                },
            },
            r is Err <==> !chunks_consistent(chunks@, self.images_size),
    {
        let ghost cached0 = self.cached@;
        let ghost chunks0 = chunks@;
        let mut tiles: Vec<Tile> = Vec::new();
        let mut cached = self.cached;
        let cn = cached.len();
        let mut i: usize = 0;
        while i < cn
            invariant
                i <= cn,
                cn == cached0.len(),
                cached@.len() == cn - i,
                forall|k: int| 0 <= k < cn - i ==> cached@[k] == cached0[i + k],
                forall|k: int| 0 <= k < cached0.len() ==> (#[trigger] cached0[k]).color
                    .in_range(),
                tiles@ == tiles_of_cached(cached0.take(i as int)),
            decreases cn - i,
        {
            let e = cached.remove(0);
            proof {
                assert(e == cached0[i as int]);
            }
            tiles.push(Tile { identity: e.identity, color: e.color, pixels: None });
            proof {
                assert(tiles@ =~= tiles_of_cached(cached0.take(i + 1)));
            }
            i = i + 1;
        }
        proof {
            assert(cached0.take(cn as int) =~= cached0);
        }
        let mut chunks = chunks;
        let nc = chunks.len();
        let mut c: usize = 0;
        while c < nc
            invariant
                c <= nc,
                nc == chunks0.len(),
                chunks@.len() == nc - c,
                forall|k: int| 0 <= k < nc - c ==> chunks@[k] == chunks0[c + k],
                tiles@ == tiles_of_cached(cached0) + chunk_tiles_of(chunks0.take(c as int)),
                forall|k: int| 0 <= k < c ==> (#[trigger] chunks0[k]).images_size
                    == self.images_size && chunks0[k].wf(),
            decreases nc - c,
        {
            let chunk = chunks.remove(0);
            proof {
                assert(chunk == chunks0[c as int]);
            }
            if !(chunk.images_size.0 == self.images_size.0 && chunk.images_size.1
                == self.images_size.1) {
                proof {
                    assert(0 <= c < chunks0.len() && chunks0[c as int].images_size
                        != self.images_size);
                    assert(!chunks_consistent(chunks0, self.images_size));
                }
                return Err(MosaicError::InconsistentTileSize);
            }
            let ghost tiles_before = tiles@;
            let mut ct = chunk.tiles;
            let tn = ct.len();
            let ghost ct0 = ct@;
            let mut t: usize = 0;
            while t < tn
                invariant
                    t <= tn,
                    tn == ct0.len(),
                    ct@.len() == tn - t,
                    forall|k: int| 0 <= k < tn - t ==> ct@[k] == ct0[t + k],
                    tiles@ == tiles_before + ct0.take(t as int),
                    forall|k: int| 0 <= k < t ==> tile_ok(
                        #[trigger] ct0[k],
                        chunks0[c as int].images_size,
                    ),
                    chunks0[c as int].images_size == self.images_size,
                    0 <= c < chunks0.len(),
                    ct0 == chunks0[c as int].tiles@,
                decreases tn - t,
            {
                let tile = ct.remove(0);
                proof {
                    assert(tile == ct0[t as int]);
                }
                let color_ok = tile.color.r <= LINEAR_MAX && tile.color.g <= LINEAR_MAX
                    && tile.color.b <= LINEAR_MAX;
                let size_ok = match &tile.pixels {
                    Some(b) => {
                        let (w, h) = b.img_size();
                        proof {
                            assert((w as u128) * (h as u128) <= u128::MAX
                                && (w as int) * (h as int) == (w as u128) * (h as u128))
                                by (nonlinear_arith)
                                requires
                                    w <= u32::MAX,
                                    h <= u32::MAX,
                            ;
                        }
                        let fits = (b.pixels.len() as u128) == (w as u128) * (h as u128);
                        fits && w == self.images_size.0 && h == self.images_size.1
                    },
                    None => true,
                };
                if !(color_ok && size_ok) {
                    proof {
                        if size_ok {
                            assert(!tile_ok(ct0[t as int], chunks0[c as int].images_size));
                        } else {
                            assert(!tile_ok(ct0[t as int], chunks0[c as int].images_size));
                        }
                        assert(!chunks0[c as int].wf());
                        assert(0 <= c < chunks0.len());
                        assert(!chunks_consistent(chunks0, self.images_size));
                    }
                    return Err(MosaicError::InconsistentTileSize);
                }
                proof {
                    assert(tile_ok(ct0[t as int], chunks0[c as int].images_size));
                }
                tiles.push(tile);
                proof {
                    assert(tiles@ =~= tiles_before + ct0.take(t + 1));
                }
                t = t + 1;
            }
            proof {
                assert(ct0.take(tn as int) =~= ct0);
                assert(chunks0.take(c + 1).drop_last() =~= chunks0.take(c as int));
                assert(chunks0.take(c + 1).last() == chunks0[c as int]);
                assert(tiles@ =~= tiles_of_cached(cached0) + chunk_tiles_of(
                    chunks0.take(c + 1),
                ));
                assert(chunks0[c as int].wf());
            }
            c = c + 1;
        }
        proof {
            assert(chunks0.take(nc as int) =~= chunks0);
            lemma_chunk_tiles_ok(chunks0, self.images_size);
        }
        Ok(ImageDictionary { images_size: self.images_size, tiles })
    }
}

/// The representative colors of a tile run, in index order.
pub open spec fn colors_of(tiles: Seq<Tile>) -> Seq<LinColor> {
    tiles.map_values(|t: Tile| t.color)
}

/// The index of the color nearest to `q` among the first `n` colors, the
/// earliest index winning ties.
pub open spec fn closest_upto(colors: Seq<LinColor>, q: LinColor, n: int) -> int
    decreases n,
{
    if n <= 1 {
        0
    } else {
        let b = closest_upto(colors, q, n - 1);
        if dist2(colors[n - 1], q) < dist2(colors[b], q) {
            n - 1
        } else {
            b
        }
    }
}

/// The index of the color nearest to `q`, the earliest index winning ties.
pub open spec fn closest_idx(colors: Seq<LinColor>, q: LinColor) -> int {
    closest_upto(colors, q, colors.len() as int)
}

/// The nearest index is a minimum of the squared distance, and the earliest
/// index that attains it.
pub proof fn lemma_closest_min(colors: Seq<LinColor>, q: LinColor)
    requires
        colors.len() > 0,
    ensures
        0 <= closest_idx(colors, q) < colors.len(),
        forall|j: int| 0 <= j < colors.len() ==> dist2(colors[closest_idx(colors, q)], q)
            <= dist2(#[trigger] colors[j], q),
        forall|j: int| 0 <= j < closest_idx(colors, q) ==> dist2(#[trigger] colors[j], q)
            > dist2(colors[closest_idx(colors, q)], q),
{
    lemma_closest_upto_min(colors, q, colors.len() as int);
}

proof fn lemma_closest_upto_min(colors: Seq<LinColor>, q: LinColor, n: int)
    requires
        1 <= n <= colors.len(),
    ensures
        0 <= closest_upto(colors, q, n) < n,
        forall|j: int| 0 <= j < n ==> dist2(colors[closest_upto(colors, q, n)], q) <= dist2(
            #[trigger] colors[j],
            q,
        ),
        forall|j: int| 0 <= j < closest_upto(colors, q, n) ==> dist2(#[trigger] colors[j], q)
            > dist2(colors[closest_upto(colors, q, n)], q),
    decreases n,
{
    if n > 1 {
        lemma_closest_upto_min(colors, q, n - 1);
    }
}

/// A query equal to the stored color of tile `t` returns `t` whenever `t`
/// is the unique minimum: its distance is zero and no other tile's is.
pub proof fn lemma_closest_exact(colors: Seq<LinColor>, q: LinColor, t: int)
    requires
        0 <= t < colors.len(),
        colors[t] == q,
        forall|j: int| 0 <= j < colors.len() && j != t ==> dist2(#[trigger] colors[j], q)
            != 0,
    ensures
        closest_idx(colors, q) == t,
{
    lemma_closest_min(colors, q);
    crate::color::lemma_dist2_nonneg(colors[t], q);
    let b = closest_idx(colors, q);
    crate::color::lemma_dist2_nonneg(colors[b], q);
    assert(dist2(colors[b], q) <= dist2(colors[t], q));
}

impl ImageDictionary {
    /// Every tile fits the run's shared tile size.
    pub open spec fn wf(self) -> bool {
        forall|i: int| 0 <= i < self.tiles@.len() ==> tile_ok(
            #[trigger] self.tiles@[i],
            self.images_size,
        )
    }

    /// Fit for composition: well-formed and every tile carries a buffer.
    pub open spec fn renderable(self) -> bool {
        self.wf() && forall|i: int| 0 <= i < self.tiles@.len() ==> (#[trigger] self.tiles@[
            i]).pixels is Some
    }

    /// How many tiles the index holds.
    pub fn len(&self) -> (r: usize)
        ensures
            r == self.tiles@.len(),
    {
        self.tiles.len()
    }

    /// The tile whose representative color is nearest to `t_color` in
    /// squared distance; the earliest in scan order wins ties. Returns its
    /// index in the tile run.
    pub fn get_closest(&self, t_color: &LinColor) -> (r: usize)
        requires
            self.wf(),
            self.tiles@.len() > 0,
            t_color.in_range(),
        ensures
            r == closest_idx(colors_of(self.tiles@), *t_color),
            r < self.tiles@.len(),
    {
        let ghost colors = colors_of(self.tiles@);
        let n = self.tiles.len();
        let mut best: usize = 0;
        let mut best_d: u64 = crate::color::distance2(&self.tiles[0].color, t_color);
        let mut i: usize = 1;
        while i < n
            invariant
                1 <= i <= n,
                n == self.tiles@.len(),
                colors == colors_of(self.tiles@),
                self.wf(),
                t_color.in_range(),
                best < i,
                best == closest_upto(colors, *t_color, i as int),
                best_d == dist2(colors[best as int], *t_color),
            decreases n - i,
        {
            let d = crate::color::distance2(&self.tiles[i].color, t_color);
            if d < best_d {
                best = i;
                best_d = d;
            }
            i = i + 1;
        }
        best
    }

    /// Whether the index is fit for composition: every tile carries a pixel
    /// buffer of the run's shared size, and every color is in range. The
    /// executable check for the compositor's precondition.
    pub fn is_renderable(&self) -> (r: bool)
        ensures
            r <==> self.renderable(),
    {
        let n = self.tiles.len();
        let mut i: usize = 0;
        while i < n
            invariant
                i <= n,
                n == self.tiles@.len(),
                forall|k: int| 0 <= k < i ==> tile_ok(#[trigger] self.tiles@[k],
                    self.images_size) && self.tiles@[k].pixels is Some,
            decreases n - i,
        {
            let t = &self.tiles[i];
            if t.color.r > LINEAR_MAX || t.color.g > LINEAR_MAX || t.color.b > LINEAR_MAX {
                return false;
            }
            match &t.pixels {
                None => {
                    return false;
                },
                Some(b) => {
                    let (w, h) = b.img_size();
                    proof {
                        assert((w as u128) * (h as u128) <= u128::MAX && (w as int) * (h
                            as int) == (w as u128) * (h as u128)) by (nonlinear_arith)
                            requires
                                w <= u32::MAX,
                                h <= u32::MAX,
                        ;
                    }
                    if (b.pixels.len() as u128) != (w as u128) * (h as u128) || w
                        != self.images_size.0 || h != self.images_size.1 {
                        return false;
                    }
                },
            }
            i = i + 1;
        }
        true
    }

    /// The cache mapping of this index: each tile's identity and color.
    pub fn save(&self) -> (r: Result<Vec<u8>, MosaicError>)
        ensures
            match r {
                Ok(bytes) => {
                    &&& mapping_encodable(tile_models(self.tiles@))
                    &&& bytes@ == enc(tile_models(self.tiles@))
                },
                Err(e) => {
                    &&& e == MosaicError::EncodeFailure
                    &&& !mapping_encodable(tile_models(self.tiles@))
                },
            },
    {
        let ghost ms = tile_models(self.tiles@);
        let n = self.tiles.len();
        if (n as u64) > (u32::MAX as u64) {
            return Err(MosaicError::EncodeFailure);
        }
        let mut entries: Vec<CacheEntry> = Vec::new();
        let mut i: usize = 0;
        while i < n
            invariant
                i <= n,
                n == self.tiles@.len(),
                ms == tile_models(self.tiles@),
                entries@.len() == i,
                forall|k: int| 0 <= k < i ==> (#[trigger] models_of(entries@)[k]) == ms[k],
                forall|k: int| 0 <= k < i ==> crate::cache::entry_encodable(
                    #[trigger] ms[k],
                ),
            decreases n - i,
        {
            let t = &self.tiles[i];
            if (t.identity.len() as u64) > (u32::MAX as u64) || t.color.r > LINEAR_MAX
                || t.color.g > LINEAR_MAX || t.color.b > LINEAR_MAX {
                proof {
                    assert(!crate::cache::entry_encodable(ms[i as int]));
                }
                return Err(MosaicError::EncodeFailure);
            }
            let identity = clone_bytes(&t.identity);
            let ghost ent0 = entries@;
            entries.push(CacheEntry { identity, color: t.color });
            proof {
                assert(ms[i as int] == (self.tiles@[i as int].identity@, self.tiles@[
                    i as int].color));
                assert(crate::cache::entry_encodable(ms[i as int]));
                assert forall|k: int| 0 <= k < i + 1 implies (#[trigger] models_of(
                    entries@,
                )[k]) == ms[k] by {
                    assert(models_of(entries@)[k] == entries@[k].model());
                    if k < i {
                        assert(entries@[k] == ent0[k]);
                        assert(models_of(ent0)[k] == ent0[k].model());
                    }
                }
            }
            i = i + 1;
        }
        if crate::cache::find_duplicate(&entries) {
            proof {
                assert(models_of(entries@) =~= ms);
            }
            return Err(MosaicError::EncodeFailure);
        }
        proof {
            assert(models_of(entries@) =~= ms);
        }
        let bytes = encode(&entries);
        Ok(bytes)
    }
}

/// The persisted model of a tile run: each tile's identity and color, in
/// order.
pub open spec fn tile_models(tiles: Seq<Tile>) -> Seq<EntryModel> {
    tiles.map_values(|t: Tile| (t.identity@, t.color))
}

/// The identities of a cache model.
pub open spec fn model_ids(ms: Seq<EntryModel>) -> Seq<Seq<u8>> {
    ms.map_values(|m: EntryModel| m.0)
}

/// A dictionary rebuilt over an unchanged tile source from the cache of a
/// complete previous run has nothing pending — the second run performs no
/// decode work — and serves every entry from the cache unchanged.
pub proof fn lemma_dictionary_idempotent(listing: Seq<Seq<u8>>, ms: Seq<EntryModel>)
    requires
        forall|i: int| 0 <= i < listing.len() ==> #[trigger] listing[i]
            == cache_file_name_spec() || model_ids(ms).contains(listing[i]),
        forall|k: int| 0 <= k < ms.len() ==> listing.contains(#[trigger] ms[k].0),
    ensures
        pending_of(listing, model_ids(ms)) == Seq::<Seq<u8>>::empty(),
        pruned_of(ms, listing) == ms,
{
    lemma_pending_all_cached(listing, model_ids(ms));
    lemma_pruned_all_present(ms, listing);
}

/// A run without a cache decodes every listed file: with no cached
/// identities, everything but the sidecar is pending, and nothing is served
/// from the cache. With `lemma_split_partitions`, a source of `N` valid
/// files therefore yields exactly `N` processed tiles.
pub proof fn lemma_open_fresh(listing: Seq<Seq<u8>>)
    requires
        forall|i: int| 0 <= i < listing.len() ==> #[trigger] listing[i]
            != cache_file_name_spec(),
    ensures
        pending_of(listing, Seq::<Seq<u8>>::empty()) == listing,
    decreases listing.len(),
{
    if listing.len() > 0 {
        assert(forall|i: int| 0 <= i < listing.drop_last().len()
            ==> #[trigger] listing.drop_last()[i] == listing[i]);
        lemma_open_fresh(listing.drop_last());
        assert(listing.last() == listing[listing.len() - 1]);
        assert(!Seq::<Seq<u8>>::empty().contains(listing.last()));
        assert(is_pending(listing.last(), Seq::<Seq<u8>>::empty()));
        assert(pending_of(listing, Seq::<Seq<u8>>::empty()) =~= listing);
    } else {
        assert(pending_of(listing, Seq::<Seq<u8>>::empty()) =~= listing);
    }
}

proof fn lemma_pending_all_cached(listing: Seq<Seq<u8>>, cache_ids: Seq<Seq<u8>>)
    requires
        forall|i: int| 0 <= i < listing.len() ==> #[trigger] listing[i]
            == cache_file_name_spec() || cache_ids.contains(listing[i]),
    ensures
        pending_of(listing, cache_ids) == Seq::<Seq<u8>>::empty(),
    decreases listing.len(),
{
    if listing.len() > 0 {
        assert(forall|i: int| 0 <= i < listing.drop_last().len()
            ==> #[trigger] listing.drop_last()[i] == listing[i]);
        lemma_pending_all_cached(listing.drop_last(), cache_ids);
        assert(listing.last() == listing[listing.len() - 1]);
        assert(!is_pending(listing.last(), cache_ids));
        assert(pending_of(listing, cache_ids) =~= Seq::<Seq<u8>>::empty());
    }
}

proof fn lemma_pruned_all_present(ms: Seq<EntryModel>, listing: Seq<Seq<u8>>)
    requires
        forall|k: int| 0 <= k < ms.len() ==> listing.contains(#[trigger] ms[k].0),
    ensures
        pruned_of(ms, listing) == ms,
    decreases ms.len(),
{
    if ms.len() > 0 {
        assert(forall|k: int| 0 <= k < ms.drop_last().len() ==> #[trigger] ms.drop_last()[k]
            == ms[k]);
        lemma_pruned_all_present(ms.drop_last(), listing);
        assert(ms.last() == ms[ms.len() - 1]);
        assert(listing.contains(ms.last().0));
        assert(pruned_of(ms, listing) =~= ms);
    }
}

/// When every chunk fits the run, so does every merged tile.
proof fn lemma_chunk_tiles_ok(cs: Seq<ImageDictionaryReaderChunk>, size: (u32, u32))
    requires
        forall|k: int| 0 <= k < cs.len() ==> (#[trigger] cs[k]).images_size == size && cs[k]
            .wf(),
    ensures
        forall|i: int| 0 <= i < chunk_tiles_of(cs).len() ==> tile_ok(
            #[trigger] chunk_tiles_of(cs)[i],
            size,
        ),
    decreases cs.len(),
{
    if cs.len() > 0 {
        lemma_chunk_tiles_ok(cs.drop_last(), size);
        assert(cs.last() == cs[cs.len() - 1]);
        assert forall|i: int| 0 <= i < chunk_tiles_of(cs).len() implies tile_ok(
            #[trigger] chunk_tiles_of(cs)[i],
            size,
        ) by {
            let front = chunk_tiles_of(cs.drop_last());
            if i < front.len() {
                assert(chunk_tiles_of(cs)[i] == front[i]);
            } else {
                assert(chunk_tiles_of(cs)[i] == cs.last().tiles@[i - front.len()]);
            }
        }
    }
}

} // verus!
