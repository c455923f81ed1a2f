//! The encoder: capacity checks first, then an infallible emission pass
//! that produces exactly the bytes `wire` describes.
use vstd::prelude::*;
use crate::catalog::{color_catalog, color_lookup, color_word, lemma_catalog_bounds,
    lemma_color_catalog_contains, lemma_rot_catalog_contains, lemma_slot_in_props, plan_catalogs,
    plan_ok, rot_catalog, rotation_lookup, rot_key, rot_key_of, single_byte_rotation, slot_in,
    Plan};
use crate::model::{Block, Building, Gradient, Metadata, TypeSettings};
use crate::primitives::{pack_color, put_i16, put_u16, put_u32, write_string_7bit};
use crate::registry::{custom_block, non_interactable, spec_custom_block, MATH_BLOCK_ID};
use crate::wire::{block_fits, block_flags, block_record_fits, can_encode, count_through,
    enc_block, enc_block_color, enc_block_head, enc_block_inter, enc_block_meta, enc_blocks, enc_building, enc_catalogs, enc_color_entries, enc_dropdown_bytes,
    enc_field_group, enc_field_groups, enc_gradient, enc_gradients, enc_i32s, enc_metadata,
    enc_quads, enc_quad_u32, enc_root, enc_root_record, enc_roots, enc_rot_entries, enc_rot_entry,
    enc_tail_arrays, enc_toggle_bytes, enc_toggles, enc_triple_i16, enc_triple_u16,
    enc_triple_u32, enc_triples_u16, enc_triples_u32, enc_type_settings, enc_u16s, enc_u32s, enc_vector_body,
    enc_vectors_and_fields, flag_nonzero, flags_byte, interactable, kept_load, kept_refs,
    last_block_index, lemma_count_full, lemma_count_stop, lemma_kept_refs_step, metadata_fits,
    root_end, vector_count,
    vectors_packed_form};
use crate::Error;

verus! {

// ---------------------------------------------------------------------------
// Small writers
// ---------------------------------------------------------------------------

fn put_triple_u32(out: &mut Vec<u8>, a: &[u32; 3])
    ensures
        final(out)@ == old(out)@ + enc_triple_u32(crate::model::triple_u32(*a)),
{
    put_u32(out, a[0]);
    put_u32(out, a[1]);
    put_u32(out, a[2]);
    assert(out@ =~= old(out)@ + enc_triple_u32(crate::model::triple_u32(*a)));
}

fn put_triple_u16(out: &mut Vec<u8>, a: &[u16; 3])
    ensures
        final(out)@ == old(out)@ + enc_triple_u16(crate::model::triple_u16(*a)),
{
    put_u16(out, a[0]);
    put_u16(out, a[1]);
    put_u16(out, a[2]);
    assert(out@ =~= old(out)@ + enc_triple_u16(crate::model::triple_u16(*a)));
}

fn put_triple_i16(out: &mut Vec<u8>, a: &[i16; 3])
    ensures
        final(out)@ == old(out)@ + enc_triple_i16(crate::model::triple_i16(*a)),
{
    put_i16(out, a[0]);
    put_i16(out, a[1]);
    put_i16(out, a[2]);
    assert(out@ =~= old(out)@ + enc_triple_i16(crate::model::triple_i16(*a)));
}

fn put_quad_u32(out: &mut Vec<u8>, a: &[u32; 4])
    ensures
        final(out)@ == old(out)@ + enc_quad_u32(crate::model::quad_u32(*a)),
{
    put_u32(out, a[0]);
    put_u32(out, a[1]);
    put_u32(out, a[2]);
    put_u32(out, a[3]);
    assert(out@ =~= old(out)@ + enc_quad_u32(crate::model::quad_u32(*a)));
}

/// Resolves a reference list: a target that exists stays, at its first
/// occurrence, in order; dangling and repeated targets drop out.
fn keep_refs(refs: &Vec<u16>, nblocks: usize) -> (r: Vec<u16>)
    ensures
        r@ == kept_refs(refs@, nblocks as int),
{
    let mut out: Vec<u16> = Vec::new();
    let mut i: usize = 0;
    proof {
        assert(refs@.take(0) =~= Seq::<u16>::empty());
    }
    while i < refs.len()
        invariant
            i <= refs@.len(),
            out@ == kept_refs(refs@.take(i as int), nblocks as int),
        decreases refs@.len() - i,
    {
        let x = refs[i];
        proof {
            lemma_kept_refs_step(refs@.take(i as int), x, nblocks as int);
            assert(refs@.take(i as int).push(x) =~= refs@.take(i + 1));
        }
        if (x as usize) < nblocks {
            let mut seen = false;
            let mut k: usize = 0;
            while k < out.len()
                invariant
                    k <= out@.len(),
                    seen == (exists|q: int| 0 <= q < k && out@[q] == x),
                decreases out@.len() - k,
            {
                if out[k] == x {
                    seen = true;
                }
                k = k + 1;
            }
            proof {
                assert(seen == out@.contains(x));
            }
            if !seen {
                out.push(x);
            }
        }
        i = i + 1;
    }
    proof {
        assert(refs@.take(refs@.len() as int) =~= refs@);
    }
    out
}

// ---------------------------------------------------------------------------
// Capacity checks
// ---------------------------------------------------------------------------

/// Every count of one gradient fits its two-byte width.
pub open spec fn gradient_fits(g: crate::model::GradientV) -> bool {
    &&& g.color_keys.len() <= 0xFFFF
    &&& g.color_time_keys.len() <= 0xFFFF
    &&& g.alpha_keys.len() <= 0xFFFF
    &&& g.alpha_time_keys.len() <= 0xFFFF
}

fn check_gradient(g: &Gradient) -> (r: bool)
    ensures
        r == gradient_fits(g@),
{
    g.color_keys.len() <= 0xFFFF && g.color_time_keys.len() <= 0xFFFF && g.alpha_keys.len()
        <= 0xFFFF && g.alpha_time_keys.len() <= 0xFFFF
}

#[verifier::rlimit(50)]
fn check_metadata(m: &Metadata, version: u8, id: u8, nblocks: usize) -> (r: bool)
    ensures
        r == metadata_fits(m@, version, id, nblocks as int),
{
    let mut gi: usize = 0;
    while gi < m.gradients.len()
        invariant
            gi <= m@.gradients.len(),
            m@.gradients.len() == m.gradients@.len(),
            forall|g: int| 0 <= g < gi ==> gradient_fits(#[trigger] m@.gradients[g]),
        decreases m.gradients@.len() - gi,
    {
        if !check_gradient(&m.gradients[gi]) {
            proof {
                assert(m@.gradients[gi as int] == m.gradients@[gi as int]@);
            }
            return false;
        }
        proof {
            assert(m@.gradients[gi as int] == m.gradients@[gi as int]@);
        }
        gi = gi + 1;
    }
    if m.values.len() > 0xFFFF {
        return false;
    }
    if id == MATH_BLOCK_ID {
        match &m.type_settings {
            TypeSettings::MathBlock { function, incoming_connections_order, slots } => {
                if function.as_str().as_bytes().len() > 0xFFFF
                    || incoming_connections_order.len() > 0xFF || slots.len() > 0xFF {
                    return false;
                }
            },
            TypeSettings::Empty => {},
        }
    }
    let custom = custom_block(id);
    let vcount = if version >= 1 && custom {
        m.vectors_packed.data.len()
    } else {
        m.vectors.len()
    };
    if version <= 4 {
        if m.toggles.len() > 0xFFFF || m.fields.len() > 0x7FFF || vcount > 0xFFFF
            || m.dropdowns.len() > 0xFFFF || m.colors.len() > 0xFFFF || m.gradients.len()
            > 0xFFFF {
            return false;
        }
        let mut fi: usize = 0;
        while fi < m.fields.len()
            invariant
                version <= 4,
                fi <= m@.fields.len(),
                m@.fields.len() == m.fields@.len(),
                forall|g: int|
                    0 <= g < fi ==> kept_refs(#[trigger] m@.fields[g], nblocks as int).len()
                        <= 0xFFFF,
            decreases m.fields@.len() - fi,
        {
            let kept = keep_refs(&m.fields[fi], nblocks);
            proof {
                assert(m@.fields[fi as int] == m.fields@[fi as int]@);
            }
            if kept.len() > 0xFFFF {
                proof {
                    assert(kept_refs(m@.fields[fi as int], nblocks as int).len() > 0xFFFF);
                    assert(!metadata_fits(m@, version, id, nblocks as int));
                }
                return false;
            }
            fi = fi + 1;
        }
        true
    } else {
        if m.toggles.len() > 0xFF || vcount > 0xFF || m.dropdowns.len() > 0x3F || m.colors.len()
            > 0xFF || m.gradients.len() > 0xFF {
            return false;
        }
        if custom {
            if m.fields.len() != 0 {
                return false;
            }
        } else {
            if m.fields.len() > 0x7F {
                return false;
            }
            let mut fi: usize = 0;
            while fi < m.fields.len()
                invariant
                    version > 4,
                    !spec_custom_block(id),
                    fi <= m@.fields.len(),
                    m@.fields.len() == m.fields@.len(),
                    forall|g: int|
                        0 <= g < fi ==> kept_refs(#[trigger] m@.fields[g], nblocks as int).len()
                            <= 0xFF,
                decreases m.fields@.len() - fi,
            {
                let kept = keep_refs(&m.fields[fi], nblocks);
                proof {
                    assert(m@.fields[fi as int] == m.fields@[fi as int]@);
                }
                if kept.len() > 0xFF {
                    proof {
                        assert(kept_refs(m@.fields[fi as int], nblocks as int).len() > 0xFF);
                        assert(!metadata_fits(m@, version, id, nblocks as int));
                    }
                    return false;
                }
                fi = fi + 1;
            }
        }
        let mut di: usize = 0;
        while di < m.dropdowns.len()
            invariant
                version > 4,
                di <= m@.dropdowns.len(),
                m@.dropdowns.len() == m.dropdowns@.len(),
                forall|d: int| 0 <= d < di ==> 0 <= #[trigger] m@.dropdowns[d] <= 0xFF,
            decreases m.dropdowns@.len() - di,
        {
            let x = m.dropdowns[di];
            if x < 0 || x > 0xFF {
                proof {
                    assert(!(0 <= m@.dropdowns[di as int] <= 0xFF));
                    assert(!metadata_fits(m@, version, id, nblocks as int));
                }
                return false;
            }
            di = di + 1;
        }
        true
    }
}

fn check_block(blk: &Block, version: u8, nblocks: usize) -> (r: bool)
    ensures
        r == block_record_fits(blk@, version, nblocks as int),
{
    match &blk.name {
        Some(n) => {
            // the byte count of a machine string always fits the
            // variable-length field; touching it teaches the prover so
            let name_bytes: &[u8] = n.as_str().as_bytes();
            let name_len = name_bytes.len();
            proof {
                assert(vstd::utf8::encode_utf8(blk@.name->Some_0).len() == name_len);
            }
        },
        None => {},
    }
    let conns = keep_refs(&blk.connections, nblocks);
    let limit: usize = if version < 4 {
        0xFFFF
    } else {
        0xFF
    };
    if conns.len() > limit {
        return false;
    }
    let inter = version < 4 || !non_interactable(blk.id);
    match &blk.metadata {
        Some(m) => {
            if inter {
                check_metadata(m, version, blk.id, nblocks)
            } else {
                true
            }
        },
        None => true,
    }
}

/// Decides whether the building encodes at `version` without any count
/// overflowing its field width.
pub fn check_capacity(b: &Building, version: u8) -> (r: bool)
    ensures
        r == can_encode(b@, version),
{
    if version > crate::MAX_VERSION {
        return false;
    }
    if b.roots.len() > 0xFFFF || b.blocks.len() > 0xFFFF {
        return false;
    }
    let nblocks = b.blocks.len();
    let mut i: usize = 0;
    while i < b.blocks.len()
        invariant
            version <= crate::MAX_VERSION,
            i <= b@.blocks.len(),
            b@.blocks.len() == b.blocks@.len(),
            b@.blocks.len() <= 0xFFFF,
            b@.roots.len() <= 0xFFFF,
            nblocks == b@.blocks.len(),
            forall|j: int| 0 <= j < i ==> block_fits(b@, version, j),
        decreases b.blocks@.len() - i,
    {
        let ok = check_block(&b.blocks[i], version, nblocks);
        proof {
            assert(b@.blocks[i as int] == b.blocks@[i as int]@);
        }
        if !ok {
            proof {
                assert(!block_fits(b@, version, i as int));
            }
            return false;
        }
        i = i + 1;
    }
    true
}

// ---------------------------------------------------------------------------
// Array writers
// ---------------------------------------------------------------------------

fn put_u16s(out: &mut Vec<u8>, v: &Vec<u16>)
    ensures
        final(out)@ == old(out)@ + enc_u16s(v@, v@.len() as int),
{
    let ghost snap = out@;
    let mut i: usize = 0;
    while i < v.len()
        invariant
            i <= v@.len(),
            out@ == snap + enc_u16s(v@, i as int),
        decreases v@.len() - i,
    {
        put_u16(out, v[i]);
        i = i + 1;
    }
}

fn put_u32s(out: &mut Vec<u8>, v: &Vec<u32>)
    ensures
        final(out)@ == old(out)@ + enc_u32s(v@, v@.len() as int),
{
    let ghost snap = out@;
    let mut i: usize = 0;
    while i < v.len()
        invariant
            i <= v@.len(),
            out@ == snap + enc_u32s(v@, i as int),
        decreases v@.len() - i,
    {
        put_u32(out, v[i]);
        i = i + 1;
    }
}

fn put_i32s(out: &mut Vec<u8>, v: &Vec<i32>)
    ensures
        final(out)@ == old(out)@ + enc_i32s(v@, v@.len() as int),
{
    let ghost snap = out@;
    let mut i: usize = 0;
    while i < v.len()
        invariant
            i <= v@.len(),
            out@ == snap + enc_i32s(v@, i as int),
        decreases v@.len() - i,
    {
        put_u32(out, v[i] as u32);
        i = i + 1;
    }
}

fn put_quads(out: &mut Vec<u8>, v: &Vec<[u32; 4]>, Ghost(qs): Ghost<Seq<(u32, u32, u32, u32)>>)
    requires
        qs.len() == v@.len(),
        forall|i: int| 0 <= i < qs.len() ==> #[trigger] qs[i] == crate::model::quad_u32(v@[i]),
    ensures
        final(out)@ == old(out)@ + enc_quads(qs, qs.len() as int),
{
    let ghost snap = out@;
    let mut i: usize = 0;
    while i < v.len()
        invariant
            i <= v@.len(),
            qs.len() == v@.len(),
            forall|k: int| 0 <= k < qs.len() ==> #[trigger] qs[k] == crate::model::quad_u32(v@[k]),
            out@ == snap + enc_quads(qs, i as int),
        decreases v@.len() - i,
    {
        put_quad_u32(out, &v[i]);
        i = i + 1;
    }
}

fn put_triples_u16(out: &mut Vec<u8>, v: &Vec<[u16; 3]>, Ghost(ts): Ghost<Seq<(u16, u16, u16)>>)
    requires
        ts.len() == v@.len(),
        forall|i: int| 0 <= i < ts.len() ==> #[trigger] ts[i] == crate::model::triple_u16(v@[i]),
    ensures
        final(out)@ == old(out)@ + enc_triples_u16(ts, ts.len() as int),
{
    let ghost snap = out@;
    let mut i: usize = 0;
    while i < v.len()
        invariant
            i <= v@.len(),
            ts.len() == v@.len(),
            forall|k: int|
                0 <= k < ts.len() ==> #[trigger] ts[k] == crate::model::triple_u16(v@[k]),
            out@ == snap + enc_triples_u16(ts, i as int),
        decreases v@.len() - i,
    {
        put_triple_u16(out, &v[i]);
        i = i + 1;
    }
}

fn put_triples_u32(out: &mut Vec<u8>, v: &Vec<[u32; 3]>, Ghost(ts): Ghost<Seq<(u32, u32, u32)>>)
    requires
        ts.len() == v@.len(),
        forall|i: int| 0 <= i < ts.len() ==> #[trigger] ts[i] == crate::model::triple_u32(v@[i]),
    ensures
        final(out)@ == old(out)@ + enc_triples_u32(ts, ts.len() as int),
{
    let ghost snap = out@;
    let mut i: usize = 0;
    while i < v.len()
        invariant
            i <= v@.len(),
            ts.len() == v@.len(),
            forall|k: int|
                0 <= k < ts.len() ==> #[trigger] ts[k] == crate::model::triple_u32(v@[k]),
            out@ == snap + enc_triples_u32(ts, i as int),
        decreases v@.len() - i,
    {
        put_triple_u32(out, &v[i]);
        i = i + 1;
    }
}

// ---------------------------------------------------------------------------
// Record writers
// ---------------------------------------------------------------------------

/// Writes a gradient: its four keyed curves, each behind a two-byte count.
pub fn write_gradient(out: &mut Vec<u8>, g: &Gradient)
    requires
        gradient_fits(g@),
    ensures
        final(out)@ == old(out)@ + enc_gradient(g@),
{
    put_u16(out, g.color_keys.len() as u16);
    put_quads(out, &g.color_keys, Ghost(g@.color_keys));
    put_u16(out, g.color_time_keys.len() as u16);
    put_u32s(out, &g.color_time_keys);
    put_u16(out, g.alpha_keys.len() as u16);
    put_u32s(out, &g.alpha_keys);
    put_u16(out, g.alpha_time_keys.len() as u16);
    put_u32s(out, &g.alpha_time_keys);
    assert(final(out)@ =~= old(out)@ + enc_gradient(g@));
}

/// Writes one weak reference group: count, then the surviving members.
fn write_field_group(out: &mut Vec<u8>, g: &Vec<u16>, nblocks: usize, version: u8)
    requires
        version <= 4 ==> kept_refs(g@, nblocks as int).len() <= 0xFFFF,
        version > 4 ==> kept_refs(g@, nblocks as int).len() <= 0xFF,
    ensures
        final(out)@ == old(out)@ + enc_field_group(g@, nblocks as int, version),
{
    let kept = keep_refs(g, nblocks);
    if version <= 4 {
        put_u16(out, kept.len() as u16);
    } else {
        out.push(kept.len() as u8);
    }
    put_u16s(out, &kept);
    assert(final(out)@ =~= old(out)@ + enc_field_group(g@, nblocks as int, version));
}

/// Writes the math-block settings where the type asks for them.
pub fn write_type_settings(out: &mut Vec<u8>, m: &Metadata, id: u8)
    requires
        id == MATH_BLOCK_ID ==> match m@.type_settings {
            crate::model::TypeSettingsV::MathBlock {
                function,
                incoming_connections_order,
                slots,
            } => {
                &&& vstd::utf8::encode_utf8(function).len() <= 0xFFFF
                &&& incoming_connections_order.len() <= 0xFF
                &&& slots.len() <= 0xFF
            },
            crate::model::TypeSettingsV::Empty => true,
        },
    ensures
        final(out)@ == old(out)@ + enc_type_settings(m@, id),
{
    if id == MATH_BLOCK_ID {
        match &m.type_settings {
            TypeSettings::MathBlock { function, incoming_connections_order, slots } => {
                let bytes: &[u8] = function.as_str().as_bytes();
                put_u16(out, bytes.len() as u16);
                out.extend_from_slice(bytes);
                out.push(incoming_connections_order.len() as u8);
                out.extend_from_slice(incoming_connections_order.as_slice());
                out.push(slots.len() as u8);
                out.extend_from_slice(slots.as_slice());
                assert(final(out)@ =~= old(out)@ + enc_type_settings(m@, id));
            },
            TypeSettings::Empty => {
                put_u16(out, 0);
                out.push(0);
                out.push(0);
                assert(final(out)@ =~= old(out)@ + enc_type_settings(m@, id));
            },
        }
    }
}

/// Writes the toggles: whole bytes behind a two-byte count in the legacy
/// layout, bit-packed behind a one-byte count in the compact one.
fn write_toggles(out: &mut Vec<u8>, toggles: &Vec<bool>, version: u8)
    requires
        version <= 4 ==> toggles@.len() <= 0xFFFF,
        version > 4 ==> toggles@.len() <= 0xFF,
    ensures
        final(out)@ == old(out)@ + enc_toggles(toggles@, version),
{
    if version <= 4 {
        put_u16(out, toggles.len() as u16);
        let ghost snap = out@;
        let mut i: usize = 0;
        while i < toggles.len()
            invariant
                i <= toggles@.len(),
                out@ == snap + enc_toggle_bytes(toggles@, i as int),
            decreases toggles@.len() - i,
        {
            out.push(if toggles[i] {
                1
            } else {
                0
            });
            i = i + 1;
        }
        assert(final(out)@ =~= old(out)@ + enc_toggles(toggles@, version));
    } else {
        out.push(toggles.len() as u8);
        let packed = crate::primitives::pack_bools(toggles);
        out.extend_from_slice(packed.as_slice());
        assert(final(out)@ =~= old(out)@ + enc_toggles(toggles@, version));
    }
}

/// Writes the vector flag and field-group header, the vector data, and the
/// surviving reference groups.
#[verifier::rlimit(50)]
fn write_vectors_and_fields(out: &mut Vec<u8>, m: &Metadata, version: u8, id: u8, nblocks: usize)
    requires
        metadata_fits(m@, version, id, nblocks as int),
        version <= 6,
    ensures
        final(out)@ == old(out)@ + enc_vectors_and_fields(m@, version, id, nblocks as int),
{
    let custom = custom_block(id);
    let packed = version >= 1 && custom;
    let vcount = if packed {
        m.vectors_packed.data.len()
    } else {
        m.vectors.len()
    };
    proof {
        assert(vcount == vector_count(m@, version, id));
        assert(packed == vectors_packed_form(version, id));
    }
    if version <= 4 {
        let header: u16 = (m.fields.len() as u16) + (if vcount > 0 {
            0x8000
        } else {
            0
        });
        put_u16(out, header);
        if vcount > 0 {
            put_u16(out, vcount as u16);
            write_vector_body(out, m, packed);
        }
        write_groups(out, m, version, nblocks);
        assert(final(out)@ =~= old(out)@ + enc_vectors_and_fields(
            m@,
            version,
            id,
            nblocks as int,
        ));
    } else {
        if custom {
            out.push(vcount as u8);
            if vcount > 0 {
                write_vector_body(out, m, packed);
            }
            assert(final(out)@ =~= old(out)@ + enc_vectors_and_fields(
                m@,
                version,
                id,
                nblocks as int,
            ));
        } else {
            let header: u8 = (m.fields.len() as u8) + (if vcount > 0 {
                0x80
            } else {
                0
            });
            out.push(header);
            if vcount > 0 {
                out.push(vcount as u8);
                write_vector_body(out, m, packed);
            }
            write_groups(out, m, version, nblocks);
            assert(final(out)@ =~= old(out)@ + enc_vectors_and_fields(
                m@,
                version,
                id,
                nblocks as int,
            ));
        }
    }
}

fn write_vector_body(out: &mut Vec<u8>, m: &Metadata, packed: bool)
    ensures
        final(out)@ == old(out)@ + enc_vector_body(m@, packed),
{
    if packed {
        out.push(m.vectors_packed.lo as u8);
        out.push(m.vectors_packed.hi as u8);
        put_triples_u16(out, &m.vectors_packed.data, Ghost(m@.vectors_packed.data));
        assert(final(out)@ =~= old(out)@ + enc_vector_body(m@, packed));
    } else {
        put_triples_u32(out, &m.vectors, Ghost(m@.vectors));
        assert(final(out)@ =~= old(out)@ + enc_vector_body(m@, packed));
    }
}

fn write_groups(out: &mut Vec<u8>, m: &Metadata, version: u8, nblocks: usize)
    requires
        version <= 4 ==> forall|g: int|
            0 <= g < m@.fields.len() ==> kept_refs(#[trigger] m@.fields[g], nblocks as int).len()
                <= 0xFFFF,
        version > 4 ==> forall|g: int|
            0 <= g < m@.fields.len() ==> kept_refs(#[trigger] m@.fields[g], nblocks as int).len()
                <= 0xFF,
    ensures
        final(out)@ == old(out)@ + enc_field_groups(
            m@.fields,
            nblocks as int,
            version,
            m@.fields.len() as int,
        ),
{
    let ghost snap = out@;
    let mut i: usize = 0;
    while i < m.fields.len()
        invariant
            i <= m@.fields.len(),
            m@.fields.len() == m.fields@.len(),
            version <= 4 ==> forall|g: int|
                0 <= g < m@.fields.len() ==> kept_refs(
                    #[trigger] m@.fields[g],
                    nblocks as int,
                ).len() <= 0xFFFF,
            version > 4 ==> forall|g: int|
                0 <= g < m@.fields.len() ==> kept_refs(
                    #[trigger] m@.fields[g],
                    nblocks as int,
                ).len() <= 0xFF,
            out@ == snap + enc_field_groups(m@.fields, nblocks as int, version, i as int),
        decreases m@.fields.len() - i,
    {
        proof {
            assert(m@.fields[i as int] == m.fields@[i as int]@);
        }
        write_field_group(out, &m.fields[i], nblocks, version);
        i = i + 1;
    }
}

/// Writes the dropdowns, color fields and gradients of one metadata record.
#[verifier::rlimit(100)]
fn write_tail_arrays(out: &mut Vec<u8>, m: &Metadata, version: u8, id: u8, nblocks: usize)
    requires
        metadata_fits(m@, version, id, nblocks as int),
    ensures
        final(out)@ == old(out)@ + enc_tail_arrays(m@, version),
{
    if version <= 4 {
        put_u16(out, m.dropdowns.len() as u16);
        put_i32s(out, &m.dropdowns);
        put_u16(out, m.colors.len() as u16);
        put_quads(out, &m.colors, Ghost(m@.colors));
        put_u16(out, m.gradients.len() as u16);
        write_gradients(out, m, version, id, nblocks);
        assert(final(out)@ =~= old(out)@ + enc_tail_arrays(m@, version));
    } else {
        let header: u8 = (m.dropdowns.len() as u8) + (if m.colors.len() > 0 {
            0x40
        } else {
            0
        }) + (if m.gradients.len() > 0 {
            0x80
        } else {
            0
        });
        out.push(header);
        let ghost snap = out@;
        let mut i: usize = 0;
        while i < m.dropdowns.len()
            invariant
                i <= m@.dropdowns.len(),
                m@.dropdowns.len() == m.dropdowns@.len(),
                forall|d: int| 0 <= d < m@.dropdowns.len() ==> 0 <= #[trigger] m@.dropdowns[d]
                    <= 0xFF,
                out@ == snap + enc_dropdown_bytes(m@.dropdowns, i as int),
            decreases m@.dropdowns.len() - i,
        {
            out.push(m.dropdowns[i] as u8);
            i = i + 1;
        }
        if m.colors.len() > 0 {
            out.push(m.colors.len() as u8);
            put_quads(out, &m.colors, Ghost(m@.colors));
        }
        if m.gradients.len() > 0 {
            out.push(m.gradients.len() as u8);
            write_gradients(out, m, version, id, nblocks);
        }
        assert(final(out)@ =~= old(out)@ + enc_tail_arrays(m@, version));
    }
}

fn write_gradients(out: &mut Vec<u8>, m: &Metadata, version: u8, id: u8, nblocks: usize)
    requires
        metadata_fits(m@, version, id, nblocks as int),
    ensures
        final(out)@ == old(out)@ + enc_gradients(m@.gradients, m@.gradients.len() as int),
{
    let ghost snap = out@;
    let mut i: usize = 0;
    while i < m.gradients.len()
        invariant
            i <= m@.gradients.len(),
            m@.gradients.len() == m.gradients@.len(),
            forall|g: int| 0 <= g < m@.gradients.len() ==> gradient_fits(#[trigger] m@.gradients[g]),
            forall|g: int|
                0 <= g < m@.gradients.len() ==> #[trigger] m@.gradients[g] == m.gradients@[g]@,
            out@ == snap + enc_gradients(m@.gradients, i as int),
        decreases m@.gradients.len() - i,
    {
        proof {
            assert(gradient_fits(m@.gradients[i as int]));
            assert(m@.gradients[i as int] == m.gradients@[i as int]@);
        }
        write_gradient(out, &m.gradients[i]);
        i = i + 1;
    }
}

/// Writes the whole metadata record of one block.
pub fn write_block_metadata(out: &mut Vec<u8>, m: &Metadata, version: u8, id: u8, nblocks: usize)
    requires
        metadata_fits(m@, version, id, nblocks as int),
        version <= 6,
    ensures
        final(out)@ == old(out)@ + enc_metadata(m@, version, id, nblocks as int),
{
    write_toggles(out, &m.toggles, version);
    put_u16(out, m.values.len() as u16);
    put_u32s(out, &m.values);
    write_vectors_and_fields(out, m, version, id, nblocks);
    write_tail_arrays(out, m, version, id, nblocks);
    write_type_settings(out, m, id);
    assert(final(out)@ =~= old(out)@ + enc_metadata(m@, version, id, nblocks as int));
}

// ---------------------------------------------------------------------------
// Blocks
// ---------------------------------------------------------------------------

/// Writes the head of a block record: position, rotation, type, owning
/// root where the layout stores it, the flag byte, and the live enable
/// value where owed.
#[verifier::rlimit(100)]
/// Computes a block's flag byte.
fn compute_flags(
    b: &Building,
    i: usize,
    version: u8,
    conns_empty: bool,
    has_load: bool,
    nonzero: bool,
) -> (r: u8)
    requires
        i < b@.blocks.len(),
        conns_empty == (kept_refs(b@.blocks[i as int].connections, b@.blocks.len() as int).len()
            == 0),
        has_load == (kept_load(b@.blocks[i as int].load, b@.blocks.len() as int) is Some),
        nonzero == flag_nonzero(b@.blocks[i as int], version),
    ensures
        r == flags_byte(b@, version, i as int),
{
    let ghost bv = b@;
    let blk = &b.blocks[i];
    proof {
        assert(bv.blocks[i as int] == b.blocks@[i as int]@);
    }
    let mut fb: u8 = 32;
    if blk.name.is_some() {
        fb = fb + 1;
    }
    if !conns_empty {
        fb = fb + 2;
    }
    if blk.metadata.is_none() {
        fb = fb + 4;
    }
    if blk.color.is_none() {
        fb = fb + 8;
    }
    if has_load {
        fb = fb + 16;
    }
    if blk.overdriven {
        fb = fb + 64;
    }
    if nonzero {
        fb = fb + 128;
    }
    proof {
        reveal(crate::primitives::bools_byte);
        assert(fb == flags_byte(bv, version, i as int));
    }
    fb
}

fn write_block_head(
    out: &mut Vec<u8>,
    b: &Building,
    i: usize,
    version: u8,
    plan: &Plan,
    rlook: bool,
    single: bool,
)
    requires
        i < b@.blocks.len(),
        b@.blocks.len() <= 0xFFFF,
        version <= 6,
        plan_ok(*plan, b@),
        rlook == rotation_lookup(b@),
        single == single_byte_rotation(b@),
    ensures
        final(out)@ == old(out)@ + enc_block_head(b@, version, i as int),
{
    let ghost bv = b@;
    let nblocks = b.blocks.len();
    let blk = &b.blocks[i];
    proof {
        assert(bv.blocks[i as int] == b.blocks@[i as int]@);
    }
    if version == 0 {
        put_triple_u32(out, &blk.position);
    } else {
        put_triple_i16(out, &blk.position_in_bounds);
    }
    if version >= 6 && rlook {
        let slot = plan.rot_slots[i];
        proof {
            lemma_rot_catalog_contains(bv, i as int);
            lemma_slot_in_props(rot_catalog(bv), rot_key_of(bv.blocks[i as int].rotation));
        }
        if single {
            out.push(slot as u8);
        } else {
            put_u16(out, slot as u16);
        }
    } else {
        put_triple_u16(out, &blk.rotation);
    }
    out.push(blk.id);
    if version < 2 {
        put_u16(out, blk.root);
    }
    let conns = keep_refs(&blk.connections, nblocks);
    let has_load = match blk.load {
        Some(l) => (l as usize) < nblocks,
        None => false,
    };
    let nonzero = version >= 3 && (blk.enable_state_current != 0 || blk.overdriven);
    let fb = compute_flags(b, i, version, conns.len() == 0, has_load, nonzero);
    out.push(fb);
    let inter = version < 4 || !non_interactable(blk.id);
    proof {
        assert(inter == interactable(bv.blocks[i as int].id, version));
        assert(block_flags(bv, version, i as int)[7] == flag_nonzero(
            bv.blocks[i as int],
            version,
        ));
    }
    if inter || nonzero {
        out.push(blk.enable_state_current);
    }
    assert(final(out)@ =~= old(out)@ + enc_block_head(bv, version, i as int));
}

/// Writes the interactive field group of a block record.
#[verifier::rlimit(100)]
fn write_block_inter(out: &mut Vec<u8>, b: &Building, i: usize, version: u8)
    requires
        i < b@.blocks.len(),
        version <= 6,
        block_fits(b@, version, i as int),
    ensures
        final(out)@ == old(out)@ + enc_block_inter(b@, version, i as int),
{
    let ghost bv = b@;
    let nblocks = b.blocks.len();
    let blk = &b.blocks[i];
    proof {
        assert(bv.blocks[i as int] == b.blocks@[i as int]@);
    }
    let inter = version < 4 || !non_interactable(blk.id);
    if inter {
        match &blk.name {
            Some(n) => {
                write_string_7bit(out, n.as_str());
            },
            None => {},
        }
        out.push(blk.enable_state);
        match blk.load {
            Some(l) => {
                if (l as usize) < nblocks {
                    put_u16(out, l);
                }
            },
            None => {},
        }
        let conns = keep_refs(&blk.connections, nblocks);
        if conns.len() > 0 {
            if version < 4 {
                put_u16(out, conns.len() as u16);
            } else {
                out.push(conns.len() as u8);
            }
            put_u16s(out, &conns);
        }
    }
    assert(final(out)@ =~= old(out)@ + enc_block_inter(bv, version, i as int));
}

/// Writes the metadata part of a block record.
fn write_block_meta_part(out: &mut Vec<u8>, b: &Building, i: usize, version: u8)
    requires
        i < b@.blocks.len(),
        version <= 6,
        block_fits(b@, version, i as int),
    ensures
        final(out)@ == old(out)@ + enc_block_meta(b@, version, i as int),
{
    let ghost bv = b@;
    let nblocks = b.blocks.len();
    let blk = &b.blocks[i];
    proof {
        assert(bv.blocks[i as int] == b.blocks@[i as int]@);
    }
    let inter = version < 4 || !non_interactable(blk.id);
    match &blk.metadata {
        Some(m) => {
            if inter {
                write_block_metadata(out, m, version, blk.id, nblocks);
            }
        },
        None => {},
    }
    assert(final(out)@ =~= old(out)@ + enc_block_meta(bv, version, i as int));
}

/// Writes the color part of a block record.
fn write_block_color_part(
    out: &mut Vec<u8>,
    b: &Building,
    i: usize,
    version: u8,
    plan: &Plan,
    clook: bool,
)
    requires
        i < b@.blocks.len(),
        version <= 6,
        plan_ok(*plan, b@),
        clook == color_lookup(b@),
    ensures
        final(out)@ == old(out)@ + enc_block_color(b@, version, i as int),
{
    let ghost bv = b@;
    let blk = &b.blocks[i];
    proof {
        assert(bv.blocks[i as int] == b.blocks@[i as int]@);
    }
    match blk.color {
        Some(c) => {
            if version == 0 {
                out.push(c[0]);
                out.push(c[1]);
                out.push(c[2]);
                out.push(0xFF);
            } else if version >= 6 && clook {
                let cslot = plan.color_slots[i];
                proof {
                    lemma_color_catalog_contains(bv, i as int);
                    lemma_slot_in_props(
                        color_catalog(bv),
                        color_word(bv.blocks[i as int].color->Some_0),
                    );
                }
                out.push(cslot as u8);
            } else {
                put_u16(out, pack_color(c));
            }
        },
        None => {},
    }
    assert(final(out)@ =~= old(out)@ + enc_block_color(bv, version, i as int));
}

/// Writes one block record.
pub fn write_block(
    out: &mut Vec<u8>,
    b: &Building,
    i: usize,
    version: u8,
    plan: &Plan,
    rlook: bool,
    single: bool,
    clook: bool,
)
    requires
        i < b@.blocks.len(),
        b@.blocks.len() <= 0xFFFF,
        version <= 6,
        plan_ok(*plan, b@),
        rlook == rotation_lookup(b@),
        single == single_byte_rotation(b@),
        clook == color_lookup(b@),
        block_fits(b@, version, i as int),
    ensures
        final(out)@ == old(out)@ + enc_block(b@, version, i as int),
{
    write_block_head(out, b, i, version, plan, rlook, single);
    write_block_inter(out, b, i, version);
    write_block_meta_part(out, b, i, version);
    write_block_color_part(out, b, i, version, plan, clook);
    assert(final(out)@ =~= old(out)@ + enc_block(b@, version, i as int));
}

// ---------------------------------------------------------------------------
// Roots and the whole stream
// ---------------------------------------------------------------------------

/// Writes one root record, given the partition boundary the wire stores.
pub fn write_root(out: &mut Vec<u8>, root: &crate::model::Root, version: u8, last: u16)
    ensures
        final(out)@ == old(out)@ + enc_root_record(root@, version, last),
{
    put_triple_u32(out, &root.position);
    put_triple_u32(out, &root.rotation);
    if version >= 1 {
        put_triple_u32(out, &root.bounds_center);
        put_triple_u32(out, &root.bounds_size);
    }
    if version >= 2 {
        put_u16(out, last);
    }
    assert(final(out)@ =~= old(out)@ + enc_root_record(root@, version, last));
}

/// Writes every root record, deriving each partition boundary from the
/// grouped block order.
fn write_roots(out: &mut Vec<u8>, b: &Building, version: u8)
    requires
        crate::model::grouped(b@),
        b@.blocks.len() <= 0xFFFF,
        b@.roots.len() <= 0xFFFF,
    ensures
        final(out)@ == old(out)@ + enc_roots(b@, version, b@.roots.len() as int),
{
    let ghost bv = b@;
    let ghost snap = out@;
    let nblocks = b.blocks.len();
    let mut j: usize = 0;
    let mut r: usize = 0;
    while r < b.roots.len()
        invariant
            bv == b@,
            crate::model::grouped(bv),
            bv.blocks.len() <= 0xFFFF,
            bv.roots.len() <= 0xFFFF,
            nblocks == bv.blocks.len(),
            r <= bv.roots.len(),
            j <= nblocks,
            forall|k: int| 0 <= k < j ==> (#[trigger] bv.blocks[k].root as int) < r,
            out@ == snap + enc_roots(bv, version, r as int),
        decreases bv.roots.len() - r,
    {
        while j < nblocks && (b.blocks[j].root as usize) <= r
            invariant
                bv == b@,
                crate::model::grouped(bv),
                nblocks == bv.blocks.len(),
                r < bv.roots.len(),
                j <= nblocks,
                forall|k: int| 0 <= k < j ==> (#[trigger] bv.blocks[k].root as int) <= r,
            decreases nblocks - j,
        {
            proof {
                assert(bv.blocks[j as int] == b.blocks@[j as int]@);
            }
            j = j + 1;
        }
        proof {
            assert forall|k: int| j <= k < nblocks implies (#[trigger] bv.blocks[k].root as int)
                > r by {
                assert(bv.blocks[j as int] == b.blocks@[j as int]@);
                assert(bv.blocks[j as int].root <= bv.blocks[k].root);
            }
            lemma_count_full(bv, r as int, j as int);
            lemma_count_stop(bv, r as int, j as int, nblocks as int);
            assert(root_end(bv, r as int) == j);
        }
        let last: u16 = if j == 0 {
            0xFFFF
        } else {
            (j - 1) as u16
        };
        proof {
            assert(last == last_block_index(bv, r as int));
            assert(bv.roots[r as int] == b.roots@[r as int]@);
        }
        write_root(out, &b.roots[r], version, last);
        r = r + 1;
    }
}

/// Computes the once-per-pass storage decisions from the catalogs.
fn decide_lookups(plan: &Plan, b: &Building) -> (r: (bool, bool, bool))
    requires
        plan_ok(*plan, b@),
        b@.blocks.len() <= 0xFFFF,
    ensures
        r.0 == single_byte_rotation(b@),
        r.1 == rotation_lookup(b@),
        r.2 == color_lookup(b@),
{
    proof {
        lemma_catalog_bounds(b@);
    }
    let nblocks = b.blocks.len();
    let rc = plan.rot_cat.len();
    let single = rc <= 255;
    let rlook = rc < 0xFFFF && (if single {
        5 * nblocks > 6 * rc
    } else {
        2 * nblocks > 3 * rc
    });
    let cc = plan.color_cat.len();
    let clook = plan.colored > 2 * cc && cc < 0xFF;
    (single, rlook, clook)
}

/// Writes the catalog section of the stream.
fn write_catalogs(out: &mut Vec<u8>, plan: &Plan, b: &Building, rlook: bool, clook: bool)
    requires
        plan_ok(*plan, b@),
        b@.blocks.len() <= 0xFFFF,
        rlook == rotation_lookup(b@),
        clook == color_lookup(b@),
    ensures
        final(out)@ == old(out)@ + enc_catalogs(b@),
{
    let ghost bv = b@;
    proof {
        lemma_catalog_bounds(bv);
    }
    if clook {
        out.push(plan.color_cat.len() as u8);
    } else {
        out.push(0xFF);
    }
    if rlook {
        put_u16(out, plan.rot_cat.len() as u16);
    } else {
        put_u16(out, 0xFFFF);
    }
    if clook {
        let ghost snap = out@;
        let mut i: usize = 0;
        while i < plan.color_cat.len()
            invariant
                plan.color_cat@ == color_catalog(bv),
                i <= plan.color_cat@.len(),
                out@ == snap + enc_color_entries(color_catalog(bv), i as int),
            decreases plan.color_cat@.len() - i,
        {
            put_u16(out, plan.color_cat[i] as u16);
            i = i + 1;
        }
    }
    if rlook {
        let ghost snap = out@;
        let mut i: usize = 0;
        while i < plan.rot_cat.len()
            invariant
                plan.rot_cat@ == rot_catalog(bv),
                i <= plan.rot_cat@.len(),
                out@ == snap + enc_rot_entries(rot_catalog(bv), i as int),
            decreases plan.rot_cat@.len() - i,
        {
            let k = plan.rot_cat[i];
            put_u16(out, (k & 0xFFFF) as u16);
            put_u16(out, ((k >> 16) & 0xFFFF) as u16);
            put_u16(out, ((k >> 32) & 0xFFFF) as u16);
            assert(out@ =~= snap + enc_rot_entries(rot_catalog(bv), i + 1));
            i = i + 1;
        }
    }
    assert(final(out)@ =~= old(out)@ + enc_catalogs(bv));
}

/// Encodes a building at the given format revision.
///
/// The blocks must be grouped contiguously by owning root, in root order:
/// that grouping is itself wire-format state.  Returns the stream exactly
/// when the version is known and every count fits its field; a dangling
/// connection, load or field reference never fails the pass, it is dropped.
pub fn write_building(b: &Building, version: u8) -> (r: Result<Vec<u8>, Error>)
    requires
        crate::model::grouped(b@),
    ensures
        match r {
            Ok(bytes) => version <= crate::MAX_VERSION && can_encode(b@, version) && bytes@
                == enc_building(b@, version),
            Err(e) => match e {
                Error::UnsupportedVersion { version: v } => v == version && version
                    > crate::MAX_VERSION,
                Error::TooManyValues => version <= crate::MAX_VERSION && !can_encode(b@, version),
                Error::InvalidData => false,
            },
        },
{
    let ghost bv = b@;
    if version > crate::MAX_VERSION {
        return Err(Error::UnsupportedVersion { version });
    }
    if !check_capacity(b, version) {
        return Err(Error::TooManyValues);
    }
    let plan = plan_catalogs(b);
    let (single, rlook, clook) = decide_lookups(&plan, b);
    let mut out: Vec<u8> = Vec::new();
    out.push(version);
    assert(out@ =~= seq![version]);
    if version >= 6 {
        write_catalogs(&mut out, &plan, b, rlook, clook);
    }
    put_u16(&mut out, b.roots.len() as u16);
    write_roots(&mut out, b, version);
    put_u16(&mut out, b.blocks.len() as u16);
    let ghost mid = out@;
    let mut i: usize = 0;
    while i < b.blocks.len()
        invariant
            bv == b@,
            version <= 6,
            can_encode(bv, version),
            plan_ok(plan, bv),
            single == single_byte_rotation(bv),
            rlook == rotation_lookup(bv),
            clook == color_lookup(bv),
            i <= bv.blocks.len(),
            out@ == mid + enc_blocks(bv, version, i as int),
        decreases bv.blocks.len() - i,
    {
        write_block(&mut out, b, i, version, &plan, rlook, single, clook);
        i = i + 1;
    }
    assert(out@ =~= enc_building(bv, version));
    Ok(out)
}

/// A block whose surviving connection list outgrows the one-byte count of
/// the later revisions cannot be encoded at all: the capacity predicate
/// excludes it, so encoding fails rather than truncate.
pub proof fn lemma_connection_overflow_forbids_encoding(
    bv: crate::model::BuildingV,
    version: u8,
    i: int,
)
    requires
        0 <= i < bv.blocks.len(),
        version >= 4,
        kept_refs(bv.blocks[i].connections, bv.blocks.len() as int).len() > 0xFF,
    ensures
        !can_encode(bv, version),
{
    assert(!block_fits(bv, version, i));
}

} // verus!
