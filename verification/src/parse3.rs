//! Block, root and whole-stream parsers.
use vstd::prelude::*;
use crate::model::{BlockV, BuildingV, RootV};
use crate::parse::{p_byte, p_triple_i16, p_triple_u16, p_triple_u32, p_u16s, p_triples_u16};
use crate::parse2::{p_metadata, refs_in_range};
use crate::primitives::{nth_bit, p_string, p_u16, spec_unpack_color};
use crate::wire::interactable;

verus! {

/// What the block parsers know from the stream head: the revision, the
/// record counts, and the catalogs with their storage decisions.
pub ghost struct PCtx {
    pub version: u8,
    pub nroots: int,
    pub nblocks: int,
    pub rcat: Seq<(u16, u16, u16)>,
    pub rlook: bool,
    pub ccat: Seq<u16>,
    pub clook: bool,
}

pub open spec fn empty_block() -> BlockV {
    BlockV {
        position: (0, 0, 0),
        position_in_bounds: (0, 0, 0),
        rotation: (0, 0, 0),
        id: 0,
        root: 0,
        name: None,
        enable_state: 0,
        enable_state_current: 0,
        overdriven: false,
        connections: Seq::empty(),
        load: None,
        color: None,
        metadata: None,
    }
}

// ---------------------------------------------------------------------------
// Block record, stage by stage
// ---------------------------------------------------------------------------

#[verifier::opaque]
pub open spec fn p_blk_color(s: Seq<u8>, i: int, ctx: PCtx, fb: u8, acc: BlockV) -> Option<
    (int, BlockV),
> {
    if !nth_bit(fb, 3) {
        if ctx.version == 0 {
            p_blk_color_v0(s, i, acc)
        } else if ctx.version >= 6 && ctx.clook {
            match p_byte(s, i) {
                Some((j, slot)) => if (slot as int) < ctx.ccat.len() {
                    Some(
                        (
                            j,
                            BlockV {
                                color: Some(spec_unpack_color(ctx.ccat[slot as int])),
                                ..acc
                            },
                        ),
                    )
                } else {
                    None
                },
                None => None,
            }
        } else {
            match p_u16(s, i) {
                Some((j, w)) => Some((j, BlockV { color: Some(spec_unpack_color(w)), ..acc })),
                None => None,
            }
        }
    } else {
        Some((i, acc))
    }
}

pub open spec fn p_blk_color_v0(s: Seq<u8>, i: int, acc: BlockV) -> Option<(int, BlockV)> {
    if 0 <= i && i + 4 <= s.len() {
        if s[i + 3] == 0xFF {
            Some((i + 4, BlockV { color: Some((s[i], s[i + 1], s[i + 2])), ..acc }))
        } else {
            None
        }
    } else {
        None
    }
}

#[verifier::opaque]
pub open spec fn p_blk_meta(s: Seq<u8>, i: int, ctx: PCtx, fb: u8, acc: BlockV) -> Option<
    (int, BlockV),
> {
    if !nth_bit(fb, 2) && interactable(acc.id, ctx.version) {
        match p_metadata(s, i, ctx.version, acc.id, ctx.nblocks) {
            Some((j, m)) => p_blk_color(s, j, ctx, fb, BlockV { metadata: Some(m), ..acc }),
            None => None,
        }
    } else {
        p_blk_color(s, i, ctx, fb, acc)
    }
}

#[verifier::opaque]
pub open spec fn p_blk_conn_list(s: Seq<u8>, i: int, ctx: PCtx, fb: u8, acc: BlockV, n: int) -> Option<
    (int, BlockV),
> {
    match p_u16s(s, i, n) {
        Some((j, xs)) => if refs_in_range(xs, ctx.nblocks) {
            p_blk_meta(s, j, ctx, fb, BlockV { connections: xs, ..acc })
        } else {
            None
        },
        None => None,
    }
}

#[verifier::opaque]
pub open spec fn p_blk_conns(s: Seq<u8>, i: int, ctx: PCtx, fb: u8, acc: BlockV) -> Option<
    (int, BlockV),
> {
    if nth_bit(fb, 1) && interactable(acc.id, ctx.version) {
        if ctx.version < 4 {
            match p_u16(s, i) {
                Some((j, n)) => if n > 0 {
                    p_blk_conn_list(s, j, ctx, fb, acc, n as int)
                } else {
                    None
                },
                None => None,
            }
        } else {
            match p_byte(s, i) {
                Some((j, n)) => if n > 0 {
                    p_blk_conn_list(s, j, ctx, fb, acc, n as int)
                } else {
                    None
                },
                None => None,
            }
        }
    } else {
        p_blk_meta(s, i, ctx, fb, acc)
    }
}

#[verifier::opaque]
pub open spec fn p_blk_load(s: Seq<u8>, i: int, ctx: PCtx, fb: u8, acc: BlockV) -> Option<
    (int, BlockV),
> {
    if nth_bit(fb, 4) && interactable(acc.id, ctx.version) {
        match p_u16(s, i) {
            Some((j, l)) => if (l as int) < ctx.nblocks {
                p_blk_conns(s, j, ctx, fb, BlockV { load: Some(l), ..acc })
            } else {
                None
            },
            None => None,
        }
    } else {
        p_blk_conns(s, i, ctx, fb, acc)
    }
}

#[verifier::opaque]
pub open spec fn p_blk_enable(s: Seq<u8>, i: int, ctx: PCtx, fb: u8, acc: BlockV) -> Option<
    (int, BlockV),
> {
    if interactable(acc.id, ctx.version) {
        match p_byte(s, i) {
            Some((j, e)) => p_blk_load(s, j, ctx, fb, BlockV { enable_state: e, ..acc }),
            None => None,
        }
    } else {
        p_blk_load(s, i, ctx, fb, acc)
    }
}

#[verifier::opaque]
pub open spec fn p_blk_name(s: Seq<u8>, i: int, ctx: PCtx, fb: u8, acc: BlockV) -> Option<
    (int, BlockV),
> {
    if nth_bit(fb, 0) && interactable(acc.id, ctx.version) {
        match p_string(s, i) {
            Some((j, n)) => p_blk_enable(s, j, ctx, fb, BlockV { name: Some(n), ..acc }),
            None => None,
        }
    } else {
        p_blk_enable(s, i, ctx, fb, acc)
    }
}

/// Reads the live enable value where owed and checks the flag byte against
/// what came: a claim of data the stream does not carry is an error, never
/// silently mended.
#[verifier::opaque]
pub open spec fn p_blk_esc(s: Seq<u8>, i: int, ctx: PCtx, fb: u8, acc: BlockV) -> Option<
    (int, BlockV),
> {
    let inter = interactable(acc.id, ctx.version);
    if inter || nth_bit(fb, 7) {
        match p_byte(s, i) {
            Some((j, esc)) => {
                if ctx.version >= 3 && (nth_bit(fb, 7) != (esc != 0 || nth_bit(fb, 6))) {
                    None
                } else {
                    p_blk_name(
                        s,
                        j,
                        ctx,
                        fb,
                        BlockV { enable_state_current: esc, overdriven: nth_bit(fb, 6), ..acc },
                    )
                }
            },
            None => None,
        }
    } else {
        if nth_bit(fb, 6) {
            None
        } else {
            p_blk_name(s, i, ctx, fb, BlockV { overdriven: false, ..acc })
        }
    }
}

#[verifier::opaque]
pub open spec fn p_blk_flags(s: Seq<u8>, i: int, ctx: PCtx, acc: BlockV) -> Option<
    (int, BlockV),
> {
    match p_byte(s, i) {
        Some((j, fb)) => {
            let inter = interactable(acc.id, ctx.version);
            if !nth_bit(fb, 5) {
                None
            } else if ctx.version < 3 && nth_bit(fb, 7) {
                None
            } else if !inter && (nth_bit(fb, 0) || nth_bit(fb, 1) || !nth_bit(fb, 2) || nth_bit(
                fb,
                4,
            )) {
                None
            } else {
                p_blk_esc(s, j, ctx, fb, acc)
            }
        },
        None => None,
    }
}

#[verifier::opaque]
pub open spec fn p_blk_root(s: Seq<u8>, i: int, ctx: PCtx, assigned: u16, acc: BlockV) -> Option<
    (int, BlockV),
> {
    if ctx.version < 2 {
        match p_u16(s, i) {
            Some((j, root)) => p_blk_flags(s, j, ctx, BlockV { root, ..acc }),
            None => None,
        }
    } else {
        p_blk_flags(s, i, ctx, BlockV { root: assigned, ..acc })
    }
}

#[verifier::opaque]
pub open spec fn p_blk_id(s: Seq<u8>, i: int, ctx: PCtx, assigned: u16, acc: BlockV) -> Option<
    (int, BlockV),
> {
    match p_byte(s, i) {
        Some((j, id)) => p_blk_root(s, j, ctx, assigned, BlockV { id, ..acc }),
        None => None,
    }
}

#[verifier::opaque]
pub open spec fn p_blk_rot(s: Seq<u8>, i: int, ctx: PCtx, assigned: u16, acc: BlockV) -> Option<
    (int, BlockV),
> {
    if ctx.version >= 6 && ctx.rlook {
        if ctx.rcat.len() <= 255 {
            match p_byte(s, i) {
                Some((j, slot)) => if (slot as int) < ctx.rcat.len() {
                    p_blk_id(s, j, ctx, assigned, BlockV { rotation: ctx.rcat[slot as int], ..acc })
                } else {
                    None
                },
                None => None,
            }
        } else {
            match p_u16(s, i) {
                Some((j, slot)) => if (slot as int) < ctx.rcat.len() {
                    p_blk_id(s, j, ctx, assigned, BlockV { rotation: ctx.rcat[slot as int], ..acc })
                } else {
                    None
                },
                None => None,
            }
        }
    } else {
        match p_triple_u16(s, i) {
            Some((j, rot)) => p_blk_id(s, j, ctx, assigned, BlockV { rotation: rot, ..acc }),
            None => None,
        }
    }
}

/// One block record.
#[verifier::opaque]
pub open spec fn p_block(s: Seq<u8>, i: int, ctx: PCtx, assigned: u16) -> Option<(int, BlockV)> {
    if ctx.version == 0 {
        match p_triple_u32(s, i) {
            Some((j, pos)) => p_blk_rot(
                s,
                j,
                ctx,
                assigned,
                BlockV { position: pos, ..empty_block() },
            ),
            None => None,
        }
    } else {
        match p_triple_i16(s, i) {
            Some((j, pib)) => p_blk_rot(
                s,
                j,
                ctx,
                assigned,
                BlockV { position_in_bounds: pib, ..empty_block() },
            ),
            None => None,
        }
    }
}

// ---------------------------------------------------------------------------
// Roots
// ---------------------------------------------------------------------------

pub open spec fn p_root_tail(s: Seq<u8>, i: int, version: u8, acc: RootV) -> Option<
    (int, (RootV, u16)),
> {
    if version >= 2 {
        match p_u16(s, i) {
            Some((j, last)) => Some((j, (acc, last))),
            None => None,
        }
    } else {
        Some((i, (acc, 0)))
    }
}

pub open spec fn p_root_bounds(s: Seq<u8>, i: int, version: u8, acc: RootV) -> Option<
    (int, (RootV, u16)),
> {
    if version >= 1 {
        match p_triple_u32(s, i) {
            Some((j, c)) => match p_triple_u32(s, j) {
                Some((k, z)) => p_root_tail(
                    s,
                    k,
                    version,
                    RootV { bounds_center: c, bounds_size: z, ..acc },
                ),
                None => None,
            },
            None => None,
        }
    } else {
        p_root_tail(s, i, version, acc)
    }
}

/// One root record, yielding also the stored partition boundary.
pub open spec fn p_root(s: Seq<u8>, i: int, version: u8) -> Option<(int, (RootV, u16))> {
    match p_triple_u32(s, i) {
        Some((j, pos)) => match p_triple_u32(s, j) {
            Some((k, rot)) => p_root_bounds(
                s,
                k,
                version,
                RootV {
                    position: pos,
                    rotation: rot,
                    bounds_center: (0, 0, 0),
                    bounds_size: (0, 0, 0),
                },
            ),
            None => None,
        },
        None => None,
    }
}

pub open spec fn p_roots(s: Seq<u8>, i: int, version: u8, n: int) -> Option<
    (int, (Seq<RootV>, Seq<u16>)),
>
    decreases n,
{
    if n <= 0 {
        Some((i, (Seq::empty(), Seq::empty())))
    } else {
        match p_roots(s, i, version, n - 1) {
            Some((j, (rs, ls))) => match p_root(s, j, version) {
                Some((k, (r, l))) => Some((k, (rs.push(r), ls.push(l)))),
                None => None,
            },
            None => None,
        }
    }
}

// ---------------------------------------------------------------------------
// Partition boundaries
// ---------------------------------------------------------------------------

/// The boundary a stored index stands for: all bits set means no block yet.
pub open spec fn end_of_last(last: u16) -> int {
    if last == 0xFFFF {
        0
    } else {
        last + 1
    }
}

pub open spec fn ends_of_lasts(lasts: Seq<u16>) -> Seq<int> {
    lasts.map_values(|l: u16| end_of_last(l))
}

/// The boundaries partition exactly the block range, in order.
pub open spec fn ends_ok(ends: Seq<int>, nblocks: int) -> bool {
    &&& forall|r: int| 0 <= r < ends.len() ==> 0 <= #[trigger] ends[r] <= nblocks
    &&& forall|r: int, q: int| 0 <= r <= q < ends.len() ==> #[trigger] ends[r] <= #[trigger] ends[q]
    &&& (if ends.len() == 0 {
        nblocks == 0
    } else {
        ends[ends.len() - 1] == nblocks
    })
}

/// The root that owns block `idx`: the first whose boundary lies past it.
pub open spec fn root_of(ends: Seq<int>, idx: int) -> int
    decreases ends.len(),
{
    if ends.len() == 0 {
        0
    } else if idx < ends[0] {
        0
    } else {
        1 + root_of(ends.drop_first(), idx)
    }
}

pub open spec fn p_blocks(s: Seq<u8>, i: int, ctx: PCtx, ends: Seq<int>, n: int) -> Option<
    (int, Seq<BlockV>),
>
    decreases n,
{
    if n <= 0 {
        Some((i, Seq::empty()))
    } else {
        match p_blocks(s, i, ctx, ends, n - 1) {
            Some((j, bs)) => match p_block(
                s,
                j,
                ctx,
                if ctx.version >= 2 {
                    root_of(ends, n - 1) as u16
                } else {
                    0
                },
            ) {
                Some((k, b)) => Some((k, bs.push(b))),
                None => None,
            },
            None => None,
        }
    }
}

// ---------------------------------------------------------------------------
// Catalogs and the whole stream
// ---------------------------------------------------------------------------

pub open spec fn p_catalog_rots(s: Seq<u8>, i: int, clook: bool, ccat: Seq<u16>, rh: u16) -> Option<
    (int, (bool, Seq<u16>, bool, Seq<(u16, u16, u16)>)),
> {
    if rh == 0xFFFF {
        Some((i, (clook, ccat, false, Seq::empty())))
    } else if rh == 0 {
        // an enabled catalog is never empty
        None
    } else {
        match p_triples_u16(s, i, rh as int) {
            Some((j, rcat)) => Some((j, (clook, ccat, true, rcat))),
            None => None,
        }
    }
}

pub open spec fn p_catalog_colors(s: Seq<u8>, i: int, ch: u8, rh: u16) -> Option<
    (int, (bool, Seq<u16>, bool, Seq<(u16, u16, u16)>)),
> {
    if ch == 0xFF {
        p_catalog_rots(s, i, false, Seq::empty(), rh)
    } else if ch == 0 {
        // an enabled catalog is never empty
        None
    } else {
        match p_u16s(s, i, ch as int) {
            Some((j, ccat)) => p_catalog_rots(s, j, true, ccat, rh),
            None => None,
        }
    }
}

/// The catalog section: two headers, then the enabled catalogs' entries.
pub open spec fn p_catalogs(s: Seq<u8>, i: int) -> Option<
    (int, (bool, Seq<u16>, bool, Seq<(u16, u16, u16)>)),
> {
    match p_byte(s, i) {
        Some((j, ch)) => match p_u16(s, j) {
            Some((k, rh)) => p_catalog_colors(s, k, ch, rh),
            None => None,
        },
        None => None,
    }
}

/// The decoded grouping of the early layouts must already be contiguous
/// by root, in root order, naming only roots that exist.
pub open spec fn blocks_grouped(blocks: Seq<BlockV>, nroots: int) -> bool {
    &&& forall|k: int| 0 <= k < blocks.len() ==> (#[trigger] blocks[k].root as int) < nroots
    &&& forall|k: int, l: int|
        0 <= k <= l < blocks.len() ==> #[trigger] blocks[k].root <= #[trigger] blocks[l].root
}

pub open spec fn p_body_blocks(
    s: Seq<u8>,
    i: int,
    ctx: PCtx,
    ends: Seq<int>,
    roots: Seq<RootV>,
) -> Option<(int, BuildingV)> {
    match p_blocks(s, i, ctx, ends, ctx.nblocks) {
        Some((j, blocks)) => if ctx.version >= 2 || blocks_grouped(blocks, ctx.nroots) {
            Some((j, BuildingV { roots, blocks }))
        } else {
            None
        },
        None => None,
    }
}

pub open spec fn p_body_counted(
    s: Seq<u8>,
    i: int,
    ctx: PCtx,
    roots: Seq<RootV>,
    lasts: Seq<u16>,
) -> Option<(int, BuildingV)> {
    if ctx.version >= 2 {
        let ends = ends_of_lasts(lasts);
        if ends_ok(ends, ctx.nblocks) {
            p_body_blocks(s, i, ctx, ends, roots)
        } else {
            None
        }
    } else {
        p_body_blocks(s, i, ctx, Seq::empty(), roots)
    }
}

pub open spec fn p_body_roots(
    s: Seq<u8>,
    i: int,
    version: u8,
    cats: (bool, Seq<u16>, bool, Seq<(u16, u16, u16)>),
    nroots: u16,
) -> Option<(int, BuildingV)> {
    match p_roots(s, i, version, nroots as int) {
        Some((j, (roots, lasts))) => match p_u16(s, j) {
            Some((k, nblocks)) => p_body_counted(
                s,
                k,
                PCtx {
                    version,
                    nroots: nroots as int,
                    nblocks: nblocks as int,
                    rcat: cats.3,
                    rlook: cats.2,
                    ccat: cats.1,
                    clook: cats.0,
                },
                roots,
                lasts,
            ),
            None => None,
        },
        None => None,
    }
}

pub open spec fn p_body(
    s: Seq<u8>,
    i: int,
    version: u8,
    cats: (bool, Seq<u16>, bool, Seq<(u16, u16, u16)>),
) -> Option<(int, BuildingV)> {
    match p_u16(s, i) {
        Some((j, nroots)) => p_body_roots(s, j, version, cats, nroots),
        None => None,
    }
}

/// The whole stream, from the version byte on.
pub open spec fn p_building(s: Seq<u8>) -> Option<(int, BuildingV)> {
    match p_byte(s, 0) {
        Some((i, version)) => if version <= crate::MAX_VERSION {
            if version >= 6 {
                match p_catalogs(s, i) {
                    Some((j, cats)) => p_body(s, j, version, cats),
                    None => None,
                }
            } else {
                p_body(s, i, version, (false, Seq::empty(), false, Seq::empty()))
            }
        } else {
            None
        },
        None => None,
    }
}

/// The boundaries the encoder derives from a grouped building, one per
/// root.
pub open spec fn building_ends(bv: BuildingV) -> Seq<int> {
    Seq::new(bv.roots.len(), |r: int| crate::wire::root_end(bv, r))
}

/// Root partitioning survives the wire.  For a grouped building, the
/// per-root boundaries the encoder stores — each root's last block index,
/// all bits set while no block has come — partition the flat block range
/// exactly, and resolving any block index against them gives back that
/// block's owning root.  The decoder reconstructs the grouping from those
/// boundaries alone; this law says the reconstruction agrees with the
/// building encoded, for roots with no block, one block or many.
pub proof fn lemma_partition_recovered(bv: BuildingV)
    requires
        crate::model::grouped(bv),
        bv.blocks.len() <= 0xFFFF,
    ensures
        ends_ok(building_ends(bv), bv.blocks.len() as int),
        forall|r: int|
            0 <= r < bv.roots.len() ==> end_of_last(crate::wire::last_block_index(bv, r))
                == building_ends(bv)[r],
        forall|i: int|
            0 <= i < bv.blocks.len() ==> root_of(building_ends(bv), i) == bv.blocks[i].root as int,
{
    let ends = building_ends(bv);
    let nblocks = bv.blocks.len() as int;
    let nroots = bv.roots.len() as int;
    // every boundary lies in range
    assert forall|r: int| 0 <= r < nroots implies 0 <= #[trigger] ends[r] <= nblocks by {
        crate::wire::lemma_count_bounds(bv, r, 0, nblocks);
    }
    // boundaries never decrease
    assert forall|r: int, q: int| 0 <= r <= q < nroots implies #[trigger] ends[r]
        <= #[trigger] ends[q] by {
        crate::wire::lemma_count_root_monotone(bv, r, q, nblocks);
    }
    // the last boundary closes the range
    if nroots == 0 {
        if nblocks > 0 {
            assert((bv.blocks[0].root as int) < 0);
        }
    } else {
        assert(ends[nroots - 1] == nblocks) by {
            assert forall|k: int| 0 <= k < nblocks implies (#[trigger] bv.blocks[k].root)
                <= nroots - 1 by {}
            crate::wire::lemma_count_full(bv, nroots - 1, nblocks);
        }
    }
    // the stored index denotes the boundary
    assert forall|r: int|
        0 <= r < nroots implies end_of_last(crate::wire::last_block_index(bv, r)) == ends[r] by {
        crate::wire::lemma_count_bounds(bv, r, 0, nblocks);
        assert(0 <= ends[r] <= nblocks);
    }
    // resolving an index finds its owner
    assert forall|i: int|
        0 <= i < nblocks implies root_of(ends, i) == bv.blocks[i].root as int by {
        let r = bv.blocks[i].root as int;
        assert(i < ends[r]) by {
            assert forall|k: int| 0 <= k < i + 1 implies (#[trigger] bv.blocks[k].root) <= r by {}
            crate::wire::lemma_count_full(bv, r, i + 1);
            crate::wire::lemma_count_bounds(bv, r, i + 1, nblocks);
        }
        assert forall|q: int| 0 <= q < r implies #[trigger] ends[q] <= i by {
            assert forall|k: int| i <= k < nblocks implies (#[trigger] bv.blocks[k].root) > q by {
                assert(bv.blocks[i].root <= bv.blocks[k].root);
            }
            crate::wire::lemma_count_stop(bv, q, i, nblocks);
            crate::wire::lemma_count_bounds(bv, q, 0, i);
        }
        lemma_root_of_owner(ends, i, r);
    }
}

/// The owner of a block index is the first root whose boundary lies past
/// it.
proof fn lemma_root_of_owner(ends: Seq<int>, idx: int, r: int)
    requires
        0 <= r < ends.len(),
        idx < ends[r],
        forall|q: int| 0 <= q < r ==> #[trigger] ends[q] <= idx,
    ensures
        root_of(ends, idx) == r,
    decreases r,
{
    if r > 0 {
        assert(ends[0] <= idx);
        let tail = ends.drop_first();
        assert(tail[r - 1] == ends[r]);
        assert forall|q: int| 0 <= q < r - 1 implies #[trigger] tail[q] <= idx by {
            assert(tail[q] == ends[q + 1]);
        }
        lemma_root_of_owner(tail, idx, r - 1);
    }
}

/// A stream decodes when it parses as one building with nothing left over.
pub open spec fn spec_decode(s: Seq<u8>) -> Option<BuildingV> {
    match p_building(s) {
        Some((j, bv)) => if j == s.len() {
            Some(bv)
        } else {
            None
        },
        None => None,
    }
}

} // verus!
