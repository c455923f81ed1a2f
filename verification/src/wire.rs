//! The wire layout, version by version, as mathematics: for every record of
//! the format a function from the model to its bytes, and the capacity
//! conditions under which those bytes exist.
//!
//! Shared shape of every version: version byte, catalogs where the version
//! has them, root count and root records, block count and block records.
//! What each revision adds is decided here field by field.
//!
//! Where the format's history left a layout point open, this file settles
//! it, and the parsers mirror the same choice exactly: the interactive
//! field group is gated by block type from the fourth revision on, and the
//! metadata counts narrow from the fifth; the math-block assignment arrays
//! travel behind one-byte counts, since without them the record cannot be
//! parsed; a custom-type metadata record past the fourth revision carries
//! no reference groups, because that layout gives their count no field; a
//! compact dropdown value must fit one byte, and encoding fails rather
//! than truncate it; an enabled catalog always holds at least one entry.
use vstd::prelude::*;
use crate::catalog::{color_catalog, color_lookup, color_word, rot_catalog, rotation_lookup,
    rot_key_of, single_byte_rotation, slot_in, key_rot0, key_rot1, key_rot2};
use crate::model::{BlockV, BuildingV, GradientV, MetadataV, TypeSettingsV};
use crate::primitives::{bools_byte, enc_bools, enc_i16, enc_string, enc_u16, enc_u32,
    spec_pack_color};
use crate::registry::{spec_custom_block, spec_non_interactable, MATH_BLOCK_ID};

verus! {

/// The little-endian words of the first `n` items, one after another.
pub open spec fn enc_u16s(s: Seq<u16>, n: int) -> Seq<u8>
    decreases n,
{
    if n <= 0 {
        Seq::empty()
    } else {
        enc_u16s(s, n - 1) + enc_u16(s[n - 1])
    }
}

pub open spec fn enc_u32s(s: Seq<u32>, n: int) -> Seq<u8>
    decreases n,
{
    if n <= 0 {
        Seq::empty()
    } else {
        enc_u32s(s, n - 1) + enc_u32(s[n - 1])
    }
}

pub open spec fn enc_i32s(s: Seq<i32>, n: int) -> Seq<u8>
    decreases n,
{
    if n <= 0 {
        Seq::empty()
    } else {
        enc_i32s(s, n - 1) + enc_i32(s[n - 1])
    }
}

pub open spec fn enc_quads(s: Seq<(u32, u32, u32, u32)>, n: int) -> Seq<u8>
    decreases n,
{
    if n <= 0 {
        Seq::empty()
    } else {
        enc_quads(s, n - 1) + enc_quad_u32(s[n - 1])
    }
}

pub open spec fn enc_triples_u32(s: Seq<(u32, u32, u32)>, n: int) -> Seq<u8>
    decreases n,
{
    if n <= 0 {
        Seq::empty()
    } else {
        enc_triples_u32(s, n - 1) + enc_triple_u32(s[n - 1])
    }
}

pub open spec fn enc_triples_u16(s: Seq<(u16, u16, u16)>, n: int) -> Seq<u8>
    decreases n,
{
    if n <= 0 {
        Seq::empty()
    } else {
        enc_triples_u16(s, n - 1) + enc_triple_u16(s[n - 1])
    }
}

/// Toggle values as whole bytes, one each (legacy layout).
pub open spec fn enc_toggle_bytes(s: Seq<bool>, n: int) -> Seq<u8>
    decreases n,
{
    if n <= 0 {
        Seq::empty()
    } else {
        enc_toggle_bytes(s, n - 1) + seq![if s[n - 1] {
            1u8
        } else {
            0u8
        }]
    }
}

/// Dropdown values narrowed to single bytes (compact layout).
pub open spec fn enc_dropdown_bytes(s: Seq<i32>, n: int) -> Seq<u8>
    decreases n,
{
    if n <= 0 {
        Seq::empty()
    } else {
        enc_dropdown_bytes(s, n - 1) + seq![s[n - 1] as u8]
    }
}

pub open spec fn enc_triple_u32(t: (u32, u32, u32)) -> Seq<u8> {
    enc_u32(t.0) + enc_u32(t.1) + enc_u32(t.2)
}

pub open spec fn enc_triple_u16(t: (u16, u16, u16)) -> Seq<u8> {
    enc_u16(t.0) + enc_u16(t.1) + enc_u16(t.2)
}

pub open spec fn enc_triple_i16(t: (i16, i16, i16)) -> Seq<u8> {
    enc_i16(t.0) + enc_i16(t.1) + enc_i16(t.2)
}

pub open spec fn enc_quad_u32(t: (u32, u32, u32, u32)) -> Seq<u8> {
    enc_u32(t.0) + enc_u32(t.1) + enc_u32(t.2) + enc_u32(t.3)
}

pub open spec fn enc_i32(x: i32) -> Seq<u8> {
    enc_u32(x as u32)
}

// ---------------------------------------------------------------------------
// Graph resolution: dangling references drop out silently
// ---------------------------------------------------------------------------

/// The reference targets the indexer emits for a list: targets that exist
/// in the current snapshot, each at its first occurrence, in order.  A
/// dangling target is dropped silently; a repeated one is emitted once —
/// the codec, not its caller, guarantees that no out-of-range and no
/// duplicate index ever reaches the wire.
pub open spec fn kept_refs(refs: Seq<u16>, nblocks: int) -> Seq<u16>
    decreases refs.len(),
{
    if refs.len() == 0 {
        Seq::empty()
    } else {
        let prev = kept_refs(refs.drop_last(), nblocks);
        let x = refs.last();
        if (x as int) < nblocks && !prev.contains(x) {
            prev.push(x)
        } else {
            prev
        }
    }
}

/// Resolving the surviving targets walks the list left to right.
pub proof fn lemma_kept_refs_step(s: Seq<u16>, x: u16, nblocks: int)
    ensures
        kept_refs(s.push(x), nblocks) == if (x as int) < nblocks && !kept_refs(
            s,
            nblocks,
        ).contains(x) {
            kept_refs(s, nblocks).push(x)
        } else {
            kept_refs(s, nblocks)
        },
{
    assert(s.push(x).drop_last() =~= s);
    assert(s.push(x).last() == x);
}

/// What the indexer emits is free of duplicates and in range.
pub proof fn lemma_kept_refs_sound(refs: Seq<u16>, nblocks: int)
    ensures
        forall|i: int, j: int|
            0 <= i < j < kept_refs(refs, nblocks).len() ==> kept_refs(refs, nblocks)[i]
                != kept_refs(refs, nblocks)[j],
        forall|i: int|
            0 <= i < kept_refs(refs, nblocks).len() ==> (#[trigger] kept_refs(refs, nblocks)[i]
                as int) < nblocks,
    decreases refs.len(),
{
    if refs.len() > 0 {
        lemma_kept_refs_sound(refs.drop_last(), nblocks);
        let prev = kept_refs(refs.drop_last(), nblocks);
        let x = refs.last();
        if (x as int) < nblocks && !prev.contains(x) {
            assert forall|i: int, j: int|
                0 <= i < j < kept_refs(refs, nblocks).len() implies kept_refs(refs, nblocks)[i]
                != kept_refs(refs, nblocks)[j] by {
                if j == prev.len() {
                    assert(prev[i] == kept_refs(refs, nblocks)[i]);
                    assert(!prev.contains(x));
                }
            }
        }
    }
}

/// A list already resolved — every target in range, none repeated — is
/// emitted unchanged.
pub proof fn lemma_kept_refs_id(refs: Seq<u16>, nblocks: int)
    requires
        forall|k: int| 0 <= k < refs.len() ==> (#[trigger] refs[k] as int) < nblocks,
        forall|a: int, b: int| 0 <= a < b < refs.len() ==> refs[a] != refs[b],
    ensures
        kept_refs(refs, nblocks) == refs,
    decreases refs.len(),
{
    if refs.len() > 0 {
        let head = refs.drop_last();
        assert forall|a: int, b: int| 0 <= a < b < head.len() implies head[a] != head[b] by {
            assert(head[a] == refs[a] && head[b] == refs[b]);
        }
        assert forall|k: int| 0 <= k < head.len() implies (#[trigger] head[k] as int)
            < nblocks by {
            assert(head[k] == refs[k]);
        }
        lemma_kept_refs_id(head, nblocks);
        assert(!head.contains(refs.last())) by {
            if head.contains(refs.last()) {
                let w = choose|w: int| 0 <= w < head.len() && head[w] == refs.last();
                assert(refs[w] == refs[refs.len() - 1]);
            }
        }
        assert(kept_refs(refs, nblocks) =~= refs);
    } else {
        assert(kept_refs(refs, nblocks) =~= refs);
    }
}

/// A load link survives only when its target exists.
pub open spec fn kept_load(load: Option<u16>, nblocks: int) -> Option<u16> {
    match load {
        Some(l) => if (l as int) < nblocks {
            Some(l)
        } else {
            None
        },
        None => None,
    }
}

// ---------------------------------------------------------------------------
// Root partitioning
// ---------------------------------------------------------------------------

/// How many of the first `n` blocks belong to roots `0 ..= r`.
pub open spec fn count_through(bv: BuildingV, r: int, n: int) -> int
    decreases n,
{
    if n <= 0 {
        0
    } else {
        count_through(bv, r, n - 1) + (if bv.blocks[n - 1].root <= r {
            1int
        } else {
            0
        })
    }
}

/// The partition boundary after root `r`: the index just past its last block.
pub open spec fn root_end(bv: BuildingV, r: int) -> int {
    count_through(bv, r, bv.blocks.len() as int)
}

/// Counting over a range where every block belongs counts them all.
pub proof fn lemma_count_full(bv: BuildingV, r: int, n: int)
    requires
        0 <= n,
        forall|k: int| 0 <= k < n ==> (#[trigger] bv.blocks[k].root) <= r,
    ensures
        count_through(bv, r, n) == n,
    decreases n,
{
    if n > 0 {
        lemma_count_full(bv, r, n - 1);
    }
}

/// Counting past blocks of later roots adds nothing.
pub proof fn lemma_count_stop(bv: BuildingV, r: int, m: int, n: int)
    requires
        0 <= m <= n,
        forall|k: int| m <= k < n ==> (#[trigger] bv.blocks[k].root) > r,
    ensures
        count_through(bv, r, n) == count_through(bv, r, m),
    decreases n - m,
{
    if m < n {
        lemma_count_stop(bv, r, m, n - 1);
    }
}

/// Counting more blocks never shrinks the count, and the count is bounded
/// by the blocks seen.
pub proof fn lemma_count_bounds(bv: BuildingV, r: int, m: int, n: int)
    requires
        0 <= m <= n,
    ensures
        0 <= count_through(bv, r, m) <= count_through(bv, r, n) <= n,
    decreases n,
{
    if n > 0 {
        if m == n {
            lemma_count_bounds(bv, r, if m > 0 {
                m - 1
            } else {
                0
            }, n - 1);
        } else {
            lemma_count_bounds(bv, r, m, n - 1);
        }
    }
}

/// A later root owns at least as many of the first `n` blocks.
pub proof fn lemma_count_root_monotone(bv: BuildingV, r1: int, r2: int, n: int)
    requires
        r1 <= r2,
        0 <= n,
    ensures
        count_through(bv, r1, n) <= count_through(bv, r2, n),
    decreases n,
{
    if n > 0 {
        lemma_count_root_monotone(bv, r1, r2, n - 1);
    }
}

/// The boundary as the wire stores it: the index of the root's last block,
/// with all sixteen bits set when no block has come yet.
pub open spec fn last_block_index(bv: BuildingV, r: int) -> u16 {
    if root_end(bv, r) == 0 {
        0xFFFF
    } else {
        (root_end(bv, r) - 1) as u16
    }
}

// ---------------------------------------------------------------------------
// Per-block decisions
// ---------------------------------------------------------------------------

/// Whether the interactive field group (name, enable states, load,
/// connections) is present for this block: early revisions carry it for
/// every block, the fourth revision on only for interactable types.
pub open spec fn interactable(id: u8, version: u8) -> bool {
    version < 4 || !spec_non_interactable(id)
}

/// Flag bit seven: the live enable value is written even for gated-off
/// blocks when it is not zero (third revision on).
pub open spec fn flag_nonzero(blk: BlockV, version: u8) -> bool {
    version >= 3 && (blk.enable_state_current != 0 || blk.overdriven)
}

/// The eight flag bits of a block, lowest first: has-name, has-connections,
/// no-metadata, no-color, has-load, the reserved bit (always set),
/// overdriven, and nonzero live state.
pub open spec fn block_flags(bv: BuildingV, version: u8, i: int) -> Seq<bool> {
    let blk = bv.blocks[i];
    seq![
        blk.name is Some,
        kept_refs(blk.connections, bv.blocks.len() as int).len() > 0,
        blk.metadata is None,
        blk.color is None,
        kept_load(blk.load, bv.blocks.len() as int) is Some,
        true,
        blk.overdriven,
        flag_nonzero(blk, version),
    ]
}

pub open spec fn flags_byte(bv: BuildingV, version: u8, i: int) -> u8 {
    bools_byte(block_flags(bv, version, i), 0)
}

/// Dangling references leave no trace: the has-connections and has-load
/// bits of a block's flag byte are computed from the references that
/// survive resolution, so a link whose target is absent from the snapshot
/// is encoded as if it were never there.
pub proof fn lemma_flags_reflect_dropped_references(bv: BuildingV, version: u8, i: int)
    requires
        0 <= i < bv.blocks.len(),
    ensures
        crate::primitives::nth_bit(flags_byte(bv, version, i), 1) == (kept_refs(
            bv.blocks[i].connections,
            bv.blocks.len() as int,
        ).len() > 0),
        crate::primitives::nth_bit(flags_byte(bv, version, i), 4) == (kept_load(
            bv.blocks[i].load,
            bv.blocks.len() as int,
        ) is Some),
{
    crate::primitives::lemma_bools_byte_bits(block_flags(bv, version, i), 0, 1);
    crate::primitives::lemma_bools_byte_bits(block_flags(bv, version, i), 0, 4);
}

// ---------------------------------------------------------------------------
// Metadata record
// ---------------------------------------------------------------------------

pub open spec fn enc_gradient(g: GradientV) -> Seq<u8> {
    enc_u16(g.color_keys.len() as u16) + enc_quads(g.color_keys, g.color_keys.len() as int)
        + enc_u16(g.color_time_keys.len() as u16) + enc_u32s(
        g.color_time_keys,
        g.color_time_keys.len() as int,
    ) + enc_u16(g.alpha_keys.len() as u16) + enc_u32s(g.alpha_keys, g.alpha_keys.len() as int)
        + enc_u16(g.alpha_time_keys.len() as u16) + enc_u32s(
        g.alpha_time_keys,
        g.alpha_time_keys.len() as int,
    )
}

pub open spec fn enc_gradients(s: Seq<GradientV>, n: int) -> Seq<u8>
    decreases n,
{
    if n <= 0 {
        Seq::empty()
    } else {
        enc_gradients(s, n - 1) + enc_gradient(s[n - 1])
    }
}

/// One weak reference group: its surviving members behind their count.
pub open spec fn enc_field_group(g: Seq<u16>, nblocks: int, version: u8) -> Seq<u8> {
    let kept = kept_refs(g, nblocks);
    (if version <= 4 {
        enc_u16(kept.len() as u16)
    } else {
        seq![kept.len() as u8]
    }) + enc_u16s(kept, kept.len() as int)
}

pub open spec fn enc_field_groups(s: Seq<Seq<u16>>, nblocks: int, version: u8, n: int) -> Seq<u8>
    decreases n,
{
    if n <= 0 {
        Seq::empty()
    } else {
        enc_field_groups(s, nblocks, version, n - 1) + enc_field_group(s[n - 1], nblocks, version)
    }
}

/// The vector bodies: raw words, or the range-quantized form for custom
/// types past the baseline revision.
pub open spec fn enc_vector_body(m: MetadataV, packed: bool) -> Seq<u8> {
    if packed {
        seq![m.vectors_packed.lo as u8, m.vectors_packed.hi as u8] + enc_triples_u16(
            m.vectors_packed.data,
            m.vectors_packed.data.len() as int,
        )
    } else {
        enc_triples_u32(m.vectors, m.vectors.len() as int)
    }
}

/// Whether this metadata stores its vectors range-quantized.
pub open spec fn vectors_packed_form(version: u8, id: u8) -> bool {
    version >= 1 && spec_custom_block(id)
}

/// The vector count the wire sees.
pub open spec fn vector_count(m: MetadataV, version: u8, id: u8) -> int {
    if vectors_packed_form(version, id) {
        m.vectors_packed.data.len() as int
    } else {
        m.vectors.len() as int
    }
}

/// The math-block settings record: the expression behind a two-byte length,
/// then the two assignment arrays each behind a one-byte count.  A variant
/// on a block whose type is not the math block is ignored; a math block
/// without the variant writes empty defaults.
pub open spec fn enc_type_settings(m: MetadataV, id: u8) -> Seq<u8> {
    if id == MATH_BLOCK_ID {
        match m.type_settings {
            TypeSettingsV::MathBlock { function, incoming_connections_order, slots } => {
                let bytes = vstd::utf8::encode_utf8(function);
                enc_u16(bytes.len() as u16) + bytes + seq![incoming_connections_order.len() as u8]
                    + incoming_connections_order + seq![slots.len() as u8] + slots
            },
            TypeSettingsV::Empty => {
                enc_u16(0) + seq![0u8] + seq![0u8]
            },
        }
    } else {
        Seq::empty()
    }
}

/// The toggles, behind a two-byte count as single bytes in the legacy
/// layout, behind a one-byte count bit-packed in the compact one.
pub open spec fn enc_toggles(toggles: Seq<bool>, version: u8) -> Seq<u8> {
    if version <= 4 {
        enc_u16(toggles.len() as u16) + enc_toggle_bytes(toggles, toggles.len() as int)
    } else {
        seq![toggles.len() as u8] + enc_bools(toggles)
    }
}

/// The vector flag and field-group header, the vector data, and the groups.
pub open spec fn enc_vectors_and_fields(m: MetadataV, version: u8, id: u8, nblocks: int) -> Seq<
    u8,
> {
    let packed = vectors_packed_form(version, id);
    let vcount = vector_count(m, version, id);
    let groups = enc_field_groups(m.fields, nblocks, version, m.fields.len() as int);
    if version <= 4 {
        enc_u16((m.fields.len() + if vcount > 0 {
            0x8000int
        } else {
            0
        }) as u16) + (if vcount > 0 {
            enc_u16(vcount as u16) + enc_vector_body(m, packed)
        } else {
            Seq::empty()
        }) + groups
    } else {
        if spec_custom_block(id) {
            seq![vcount as u8] + (if vcount > 0 {
                enc_vector_body(m, packed)
            } else {
                Seq::empty()
            })
        } else {
            seq![(m.fields.len() + if vcount > 0 {
                0x80int
            } else {
                0
            }) as u8] + (if vcount > 0 {
                seq![vcount as u8] + enc_vector_body(m, packed)
            } else {
                Seq::empty()
            }) + groups
        }
    }
}

/// The dropdowns, color fields and gradients: each behind a two-byte count
/// in the legacy layout; folded behind one shared byte in the compact one.
pub open spec fn enc_tail_arrays(m: MetadataV, version: u8) -> Seq<u8> {
    let grads = enc_gradients(m.gradients, m.gradients.len() as int);
    let colors = enc_quads(m.colors, m.colors.len() as int);
    if version <= 4 {
        enc_u16(m.dropdowns.len() as u16) + enc_i32s(m.dropdowns, m.dropdowns.len() as int)
            + enc_u16(m.colors.len() as u16) + colors + enc_u16(m.gradients.len() as u16) + grads
    } else {
        seq![(m.dropdowns.len() + if m.colors.len() > 0 {
            0x40int
        } else {
            0
        } + if m.gradients.len() > 0 {
            0x80int
        } else {
            0
        }) as u8] + enc_dropdown_bytes(m.dropdowns, m.dropdowns.len() as int) + (
        if m.colors.len() > 0 {
            seq![m.colors.len() as u8] + colors
        } else {
            Seq::empty()
        }) + (if m.gradients.len() > 0 {
            seq![m.gradients.len() as u8] + grads
        } else {
            Seq::empty()
        })
    }
}

/// The whole metadata record of one block.
pub open spec fn enc_metadata(m: MetadataV, version: u8, id: u8, nblocks: int) -> Seq<u8> {
    enc_toggles(m.toggles, version) + enc_u16(m.values.len() as u16) + enc_u32s(
        m.values,
        m.values.len() as int,
    ) + enc_vectors_and_fields(m, version, id, nblocks) + enc_tail_arrays(m, version)
        + enc_type_settings(m, id)
}

// ---------------------------------------------------------------------------
// Block record
// ---------------------------------------------------------------------------

/// The head of a block record: position, rotation, type, owning root
/// (early layouts), the flag byte, and the live enable value where owed.
pub open spec fn enc_block_head(bv: BuildingV, version: u8, i: int) -> Seq<u8> {
    let blk = bv.blocks[i];
    let inter = interactable(blk.id, version);
    let flags = block_flags(bv, version, i);
    (if version == 0 {
        enc_triple_u32(blk.position)
    } else {
        enc_triple_i16(blk.position_in_bounds)
    }) + (if version >= 6 && rotation_lookup(bv) {
        let slot = slot_in(rot_catalog(bv), rot_key_of(blk.rotation));
        if single_byte_rotation(bv) {
            seq![slot as u8]
        } else {
            enc_u16(slot as u16)
        }
    } else {
        enc_triple_u16(blk.rotation)
    }) + seq![blk.id] + (if version < 2 {
        enc_u16(blk.root)
    } else {
        Seq::empty()
    }) + seq![flags_byte(bv, version, i)] + (if inter || flags[7] {
        seq![blk.enable_state_current]
    } else {
        Seq::empty()
    })
}

/// The interactive field group: name, authored enable value, surviving
/// load link, surviving connections.
pub open spec fn enc_block_inter(bv: BuildingV, version: u8, i: int) -> Seq<u8> {
    let blk = bv.blocks[i];
    let nblocks = bv.blocks.len() as int;
    let conns = kept_refs(blk.connections, nblocks);
    if interactable(blk.id, version) {
        (match blk.name {
            Some(n) => enc_string(n),
            None => Seq::empty(),
        }) + seq![blk.enable_state] + (match kept_load(blk.load, nblocks) {
            Some(l) => enc_u16(l),
            None => Seq::empty(),
        }) + (if conns.len() > 0 {
            (if version < 4 {
                enc_u16(conns.len() as u16)
            } else {
                seq![conns.len() as u8]
            }) + enc_u16s(conns, conns.len() as int)
        } else {
            Seq::empty()
        })
    } else {
        Seq::empty()
    }
}

/// The metadata part of a block record, where present and not gated off.
pub open spec fn enc_block_meta(bv: BuildingV, version: u8, i: int) -> Seq<u8> {
    let blk = bv.blocks[i];
    match blk.metadata {
        Some(m) => if interactable(blk.id, version) {
            enc_metadata(m, version, blk.id, bv.blocks.len() as int)
        } else {
            Seq::empty()
        },
        None => Seq::empty(),
    }
}

/// The color part of a block record: raw channels and a pad at the
/// baseline, a catalog slot or the packed word after.
pub open spec fn enc_block_color(bv: BuildingV, version: u8, i: int) -> Seq<u8> {
    let blk = bv.blocks[i];
    match blk.color {
        Some(c) => if version == 0 {
            seq![c.0, c.1, c.2, 0xFFu8]
        } else if version >= 6 && color_lookup(bv) {
            seq![slot_in(color_catalog(bv), color_word(c)) as u8]
        } else {
            enc_u16(spec_pack_color(c.0, c.1, c.2))
        },
        None => Seq::empty(),
    }
}

/// One block record.
pub open spec fn enc_block(bv: BuildingV, version: u8, i: int) -> Seq<u8> {
    enc_block_head(bv, version, i) + enc_block_inter(bv, version, i) + enc_block_meta(
        bv,
        version,
        i,
    ) + enc_block_color(bv, version, i)
}

// ---------------------------------------------------------------------------
// Root record and the whole stream
// ---------------------------------------------------------------------------

/// One root record, given the partition boundary the wire stores for it.
pub open spec fn enc_root_record(root: crate::model::RootV, version: u8, last: u16) -> Seq<u8> {
    enc_triple_u32(root.position) + enc_triple_u32(root.rotation) + (if version >= 1 {
        enc_triple_u32(root.bounds_center) + enc_triple_u32(root.bounds_size)
    } else {
        Seq::empty()
    }) + (if version >= 2 {
        enc_u16(last)
    } else {
        Seq::empty()
    })
}

/// One root record.
pub open spec fn enc_root(bv: BuildingV, version: u8, r: int) -> Seq<u8> {
    enc_root_record(bv.roots[r], version, last_block_index(bv, r))
}

pub open spec fn enc_roots(bv: BuildingV, version: u8, n: int) -> Seq<u8>
    decreases n,
{
    if n <= 0 {
        Seq::empty()
    } else {
        enc_roots(bv, version, n - 1) + enc_root(bv, version, n - 1)
    }
}

pub open spec fn enc_blocks(bv: BuildingV, version: u8, n: int) -> Seq<u8>
    decreases n,
{
    if n <= 0 {
        Seq::empty()
    } else {
        enc_blocks(bv, version, n - 1) + enc_block(bv, version, n - 1)
    }
}

/// One rotation catalog entry: the three packed axes.
pub open spec fn enc_rot_entry(k: u64) -> Seq<u8> {
    enc_u16(key_rot0(k)) + enc_u16(key_rot1(k)) + enc_u16(key_rot2(k))
}

pub open spec fn enc_rot_entries(s: Seq<u64>, n: int) -> Seq<u8>
    decreases n,
{
    if n <= 0 {
        Seq::empty()
    } else {
        enc_rot_entries(s, n - 1) + enc_rot_entry(s[n - 1])
    }
}

/// Color catalog entries: each value's low sixteen bits.
pub open spec fn enc_color_entries(s: Seq<u64>, n: int) -> Seq<u8>
    decreases n,
{
    if n <= 0 {
        Seq::empty()
    } else {
        enc_color_entries(s, n - 1) + enc_u16(s[n - 1] as u16)
    }
}

/// The catalog section: the color header byte and two-byte rotation header,
/// each a count or an all-ones sentinel for "unused", then the enabled
/// catalogs' entries.
pub open spec fn enc_catalogs(bv: BuildingV) -> Seq<u8> {
    (if color_lookup(bv) {
        seq![color_catalog(bv).len() as u8]
    } else {
        seq![0xFFu8]
    }) + (if rotation_lookup(bv) {
        enc_u16(rot_catalog(bv).len() as u16)
    } else {
        enc_u16(0xFFFF)
    }) + (if color_lookup(bv) {
        enc_color_entries(color_catalog(bv), color_catalog(bv).len() as int)
    } else {
        Seq::empty()
    }) + (if rotation_lookup(bv) {
        enc_rot_entries(rot_catalog(bv), rot_catalog(bv).len() as int)
    } else {
        Seq::empty()
    })
}

/// The full stream of one building at one revision.
pub open spec fn enc_building(bv: BuildingV, version: u8) -> Seq<u8> {
    seq![version] + (if version >= 6 {
        enc_catalogs(bv)
    } else {
        Seq::empty()
    }) + enc_u16(bv.roots.len() as u16) + enc_roots(bv, version, bv.roots.len() as int) + enc_u16(
        bv.blocks.len() as u16,
    ) + enc_blocks(bv, version, bv.blocks.len() as int)
}

// ---------------------------------------------------------------------------
// Capacity: when the bytes above exist
// ---------------------------------------------------------------------------

/// Every count of this metadata record fits its field width at `version`.
pub open spec fn metadata_fits(m: MetadataV, version: u8, id: u8, nblocks: int) -> bool {
    &&& m.values.len() <= 0xFFFF
    &&& forall|g: int|
        0 <= g < m.gradients.len() ==> {
            &&& (#[trigger] m.gradients[g]).color_keys.len() <= 0xFFFF
            &&& m.gradients[g].color_time_keys.len() <= 0xFFFF
            &&& m.gradients[g].alpha_keys.len() <= 0xFFFF
            &&& m.gradients[g].alpha_time_keys.len() <= 0xFFFF
        }
    &&& (id == MATH_BLOCK_ID ==> match m.type_settings {
        TypeSettingsV::MathBlock { function, incoming_connections_order, slots } => {
            &&& vstd::utf8::encode_utf8(function).len() <= 0xFFFF
            &&& incoming_connections_order.len() <= 0xFF
            &&& slots.len() <= 0xFF
        },
        TypeSettingsV::Empty => true,
    })
    &&& if version <= 4 {
        &&& m.toggles.len() <= 0xFFFF
        &&& m.fields.len() <= 0x7FFF
        &&& vector_count(m, version, id) <= 0xFFFF
        &&& forall|g: int|
            0 <= g < m.fields.len() ==> kept_refs(#[trigger] m.fields[g], nblocks).len() <= 0xFFFF
        &&& m.dropdowns.len() <= 0xFFFF
        &&& m.colors.len() <= 0xFFFF
        &&& m.gradients.len() <= 0xFFFF
    } else {
        &&& m.toggles.len() <= 0xFF
        &&& vector_count(m, version, id) <= 0xFF
        &&& if spec_custom_block(id) {
            m.fields.len() == 0
        } else {
            &&& m.fields.len() <= 0x7F
            &&& forall|g: int|
                0 <= g < m.fields.len() ==> kept_refs(#[trigger] m.fields[g], nblocks).len()
                    <= 0xFF
        }
        &&& m.dropdowns.len() <= 0x3F
        &&& forall|d: int| 0 <= d < m.dropdowns.len() ==> 0 <= #[trigger] m.dropdowns[d] <= 0xFF
        &&& m.colors.len() <= 0xFF
        &&& m.gradients.len() <= 0xFF
    }
}

/// Every count of this block record fits its field width at `version`.
pub open spec fn block_record_fits(blk: BlockV, version: u8, nblocks: int) -> bool {
    let conns = kept_refs(blk.connections, nblocks);
    &&& (if version < 4 {
        conns.len() <= 0xFFFF
    } else {
        conns.len() <= 0xFF
    })
    &&& (match blk.name {
        Some(n) => vstd::utf8::encode_utf8(n).len() <= u64::MAX,
        None => true,
    })
    &&& (match blk.metadata {
        Some(m) => interactable(blk.id, version) ==> metadata_fits(m, version, blk.id, nblocks),
        None => true,
    })
}

pub open spec fn block_fits(bv: BuildingV, version: u8, i: int) -> bool {
    block_record_fits(bv.blocks[i], version, bv.blocks.len() as int)
}

/// The building encodes at `version` without any count overflowing its
/// field: the capacity conditions of the whole stream.
pub open spec fn can_encode(bv: BuildingV, version: u8) -> bool {
    &&& version <= crate::MAX_VERSION
    &&& bv.roots.len() <= 0xFFFF
    &&& bv.blocks.len() <= 0xFFFF
    &&& forall|i: int| 0 <= i < bv.blocks.len() ==> block_fits(bv, version, i)
}

} // verus!
