//! The codec's central law: a building in canonical form decodes from its
//! own encoding unchanged, at every supported revision.
//!
//! Canonical form names exactly the states a decode can produce: the
//! position form the revision does not carry is zeroed, colors are exact
//! under the sixteen-bit packing, references are resolved (in range, no
//! repeats), gated-off interactive fields are absent, and the vector and
//! settings forms match the block's type.
use vstd::prelude::*;
use crate::catalog::{color_catalog, color_lookup, color_word, key_rot0, key_rot1, key_rot2,
    lemma_catalog_bounds, lemma_color_catalog_contains, lemma_distinct_seq_props,
    lemma_rot_catalog_contains, lemma_rot_key_round, lemma_slot_in_props, rot_catalog,
    rotation_lookup, rot_key_of, single_byte_rotation, slot_in, color_words_upto};
use crate::model::{BlockV, BuildingV, GradientV, MetadataV, PackedVectorsV, RootV, TypeSettingsV};
use crate::parse::{lemma_p_i32s, lemma_p_quads, lemma_p_toggle_bytes,
    lemma_p_triple_i16, lemma_p_triple_u16, lemma_p_triple_u32, lemma_p_triples_u16,
    lemma_p_triples_u32, lemma_p_u16s, lemma_p_u32s, lemma_split, p_u16s, p_triples_u16};
use crate::parse2::refs_in_range;
use crate::parse3::{building_ends, ends_ok, end_of_last, lemma_partition_recovered, p_catalogs,
    p_root, p_roots, root_of, PCtx};
use crate::primitives::{enc_u16, lemma_p_string, lemma_p_u16, p_u16, spec_pack_color,
    spec_unpack_color};
use crate::registry::{spec_custom_block, MATH_BLOCK_ID};
use crate::wire::{can_encode, enc_building, enc_catalogs, enc_color_entries, enc_root,
    enc_roots, enc_rot_entries, enc_rot_entry, enc_triple_u16, enc_triple_u32, interactable,
    kept_load, kept_refs, last_block_index, vectors_packed_form};

verus! {

// ---------------------------------------------------------------------------
// Canonical form
// ---------------------------------------------------------------------------

/// At the baseline revision the root's box is not on the wire.
pub open spec fn canonical_root(root: RootV, version: u8) -> bool {
    version == 0 ==> root.bounds_center == (0u32, 0u32, 0u32) && root.bounds_size == (
    0u32,
    0u32,
    0u32,
    )
}

/// Settings as a decode leaves them: the math record only on the math
/// type, and never the variant with nothing in it, which the wire cannot
/// tell from no settings.
pub open spec fn canonical_settings(m: MetadataV, id: u8) -> bool {
    if id == MATH_BLOCK_ID {
        match m.type_settings {
            TypeSettingsV::MathBlock { function, incoming_connections_order, slots } => !(
            vstd::utf8::encode_utf8(function).len() == 0 && incoming_connections_order.len() == 0
                && slots.len() == 0),
            TypeSettingsV::Empty => true,
        }
    } else {
        m.type_settings matches TypeSettingsV::Empty
    }
}

/// Metadata as a decode leaves it: references resolved, and only the
/// vector form the block's type stores.
pub open spec fn canonical_metadata(m: MetadataV, version: u8, id: u8, nblocks: int) -> bool {
    &&& forall|g: int| 0 <= g < m.fields.len() ==> refs_in_range(#[trigger] m.fields[g], nblocks)
    &&& (vectors_packed_form(version, id) ==> m.vectors.len() == 0 && (m.vectors_packed.data.len()
        == 0 ==> m.vectors_packed.lo == 0 && m.vectors_packed.hi == 0))
    &&& (!vectors_packed_form(version, id) ==> m.vectors_packed == (PackedVectorsV {
        lo: 0,
        hi: 0,
        data: Seq::empty(),
    }))
    &&& canonical_settings(m, id)
}

/// A block as a decode leaves it.
pub open spec fn canonical_block(bv: BuildingV, version: u8, i: int) -> bool {
    let blk = bv.blocks[i];
    let nblocks = bv.blocks.len() as int;
    &&& (version == 0 ==> blk.position_in_bounds == (0i16, 0i16, 0i16))
    &&& (version != 0 ==> blk.position == (0u32, 0u32, 0u32))
    &&& refs_in_range(blk.connections, nblocks)
    &&& (match blk.load {
        Some(l) => (l as int) < nblocks,
        None => true,
    })
    &&& (version >= 1 ==> match blk.color {
        Some(c) => spec_unpack_color(spec_pack_color(c.0, c.1, c.2)) == c,
        None => true,
    })
    &&& (!interactable(blk.id, version) ==> blk.name is None && blk.enable_state == 0
        && blk.connections == Seq::<u16>::empty() && blk.load is None && blk.metadata is None)
    &&& (match blk.metadata {
        Some(m) => canonical_metadata(m, version, blk.id, nblocks),
        None => true,
    })
}

/// The whole building in the form a decode produces.
pub open spec fn canonical(bv: BuildingV, version: u8) -> bool {
    &&& forall|r: int| 0 <= r < bv.roots.len() ==> canonical_root(#[trigger] bv.roots[r], version)
    &&& forall|i: int| 0 <= i < bv.blocks.len() ==> canonical_block(bv, version, i)
}

/// What the stream head tells the block parsers about this building.
pub open spec fn ctx_of(bv: BuildingV, version: u8) -> PCtx {
    PCtx {
        version,
        nroots: bv.roots.len() as int,
        nblocks: bv.blocks.len() as int,
        rcat: if version >= 6 && rotation_lookup(bv) {
            Seq::new(
                rot_catalog(bv).len(),
                |q: int|
                    (
                        key_rot0(rot_catalog(bv)[q]),
                        key_rot1(rot_catalog(bv)[q]),
                        key_rot2(rot_catalog(bv)[q]),
                    ),
            )
        } else {
            Seq::empty()
        },
        rlook: version >= 6 && rotation_lookup(bv),
        ccat: if version >= 6 && color_lookup(bv) {
            Seq::new(color_catalog(bv).len(), |q: int| rot_catalog_low(color_catalog(bv)[q]))
        } else {
            Seq::empty()
        },
        clook: version >= 6 && color_lookup(bv),
    }
}

/// A catalog value's low sixteen bits, as the wire stores a color entry.
pub open spec fn rot_catalog_low(k: u64) -> u16 {
    k as u16
}

// ---------------------------------------------------------------------------
// Catalog section
// ---------------------------------------------------------------------------

proof fn lemma_p_color_entries(s: Seq<u8>, i: int, ks: Seq<u64>, n: int)
    requires
        0 <= n <= ks.len(),
        0 <= i,
        i + enc_color_entries(ks, n).len() <= s.len(),
        s.subrange(i, i + enc_color_entries(ks, n).len()) == enc_color_entries(ks, n),
    ensures
        p_u16s(s, i, n) == Some(
            (
                i + enc_color_entries(ks, n).len(),
                Seq::new(n as nat, |q: int| rot_catalog_low(ks[q])),
            ),
        ),
    decreases n,
{
    if n <= 0 {
        assert(Seq::new(0, |q: int| rot_catalog_low(ks[q])) =~= Seq::<u16>::empty());
    } else {
        let e1 = enc_color_entries(ks, n - 1);
        let e2 = enc_u16(ks[n - 1] as u16);
        lemma_split(s, i, e1, e2);
        lemma_p_color_entries(s, i, ks, n - 1);
        lemma_p_u16(s, i + e1.len(), ks[n - 1] as u16);
        assert(Seq::new((n - 1) as nat, |q: int| rot_catalog_low(ks[q])).push(
            rot_catalog_low(ks[n - 1]),
        ) =~= Seq::new(n as nat, |q: int| rot_catalog_low(ks[q])));
    }
}

proof fn lemma_p_rot_entries(s: Seq<u8>, i: int, ks: Seq<u64>, n: int)
    requires
        0 <= n <= ks.len(),
        0 <= i,
        i + enc_rot_entries(ks, n).len() <= s.len(),
        s.subrange(i, i + enc_rot_entries(ks, n).len()) == enc_rot_entries(ks, n),
    ensures
        p_triples_u16(s, i, n) == Some(
            (
                i + enc_rot_entries(ks, n).len(),
                Seq::new(
                    n as nat,
                    |q: int| (key_rot0(ks[q]), key_rot1(ks[q]), key_rot2(ks[q])),
                ),
            ),
        ),
    decreases n,
{
    if n <= 0 {
        assert(Seq::new(0, |q: int| (key_rot0(ks[q]), key_rot1(ks[q]), key_rot2(ks[q]))) =~= Seq::<
            (u16, u16, u16),
        >::empty());
    } else {
        let e1 = enc_rot_entries(ks, n - 1);
        let k = ks[n - 1];
        let e2 = enc_rot_entry(k);
        lemma_split(s, i, e1, e2);
        lemma_p_rot_entries(s, i, ks, n - 1);
        assert(enc_rot_entry(k) =~= enc_triple_u16((key_rot0(k), key_rot1(k), key_rot2(k))));
        lemma_p_triple_u16(s, i + e1.len(), (key_rot0(k), key_rot1(k), key_rot2(k)));
        assert(Seq::new(
            (n - 1) as nat,
            |q: int| (key_rot0(ks[q]), key_rot1(ks[q]), key_rot2(ks[q])),
        ).push((key_rot0(k), key_rot1(k), key_rot2(k))) =~= Seq::new(
            n as nat,
            |q: int| (key_rot0(ks[q]), key_rot1(ks[q]), key_rot2(ks[q])),
        ));
    }
}

/// An enabled catalog holds at least one entry and fits its header.
proof fn lemma_catalog_sizes(bv: BuildingV)
    ensures
        rotation_lookup(bv) ==> 1 <= rot_catalog(bv).len() < 0xFFFF,
        color_lookup(bv) ==> 1 <= color_catalog(bv).len() < 0xFF,
{
    lemma_catalog_bounds(bv);
    if rotation_lookup(bv) && rot_catalog(bv).len() == 0 {
        assert(5 * bv.blocks.len() > 0 || 2 * bv.blocks.len() > 0);
        assert(bv.blocks.len() > 0);
        lemma_rot_catalog_contains(bv, 0);
    }
    if color_lookup(bv) && color_catalog(bv).len() == 0 {
        let n = bv.blocks.len() as int;
        let words = color_words_upto(bv, n);
        lemma_distinct_seq_props(words);
        if words.len() > 0 {
            assert(words.contains(words[0]));
            assert(color_catalog(bv).contains(words[0]));
        }
        crate::catalog::lemma_color_words_len(bv, n);
        assert(crate::catalog::colored_count(bv) == 0);
    }
}

/// The catalog section parses back to the catalogs the planner built.
proof fn lemma_p_catalogs(s: Seq<u8>, i: int, bv: BuildingV, version: u8)
    requires
        version >= 6,
        0 <= i,
        i + enc_catalogs(bv).len() <= s.len(),
        s.subrange(i, i + enc_catalogs(bv).len()) == enc_catalogs(bv),
    ensures
        p_catalogs(s, i) == Some(
            (
                i + enc_catalogs(bv).len(),
                (
                    color_lookup(bv),
                    ctx_of(bv, version).ccat,
                    rotation_lookup(bv),
                    ctx_of(bv, version).rcat,
                ),
            ),
        ),
{
    lemma_catalog_sizes(bv);
    let ch: u8 = if color_lookup(bv) {
        color_catalog(bv).len() as u8
    } else {
        0xFF
    };
    let rhe: Seq<u8> = if rotation_lookup(bv) {
        enc_u16(rot_catalog(bv).len() as u16)
    } else {
        enc_u16(0xFFFF)
    };
    let ce: Seq<u8> = if color_lookup(bv) {
        enc_color_entries(color_catalog(bv), color_catalog(bv).len() as int)
    } else {
        Seq::empty()
    };
    let re: Seq<u8> = if rotation_lookup(bv) {
        enc_rot_entries(rot_catalog(bv), rot_catalog(bv).len() as int)
    } else {
        Seq::empty()
    };
    assert(enc_catalogs(bv) =~= seq![ch] + (rhe + (ce + re)));
    lemma_split(s, i, seq![ch], rhe + (ce + re));
    assert(s.subrange(i, i + 1)[0] == s[i]);
    lemma_split(s, i + 1, rhe, ce + re);
    lemma_split(s, i + 3, ce, re);
    let rh: u16 = if rotation_lookup(bv) {
        rot_catalog(bv).len() as u16
    } else {
        0xFFFF
    };
    lemma_p_u16(s, i + 1, rh);
    if color_lookup(bv) {
        lemma_p_color_entries(s, i + 3, color_catalog(bv), color_catalog(bv).len() as int);
    }
    if rotation_lookup(bv) {
        lemma_p_rot_entries(
            s,
            i + 3 + ce.len(),
            rot_catalog(bv),
            rot_catalog(bv).len() as int,
        );
    }
    if !color_lookup(bv) {
        assert(ctx_of(bv, version).ccat =~= Seq::<u16>::empty());
    }
    if !rotation_lookup(bv) {
        assert(ctx_of(bv, version).rcat =~= Seq::<(u16, u16, u16)>::empty());
    }
}

// ---------------------------------------------------------------------------
// Root records
// ---------------------------------------------------------------------------

#[verifier::rlimit(100)]
proof fn lemma_p_root_enc(s: Seq<u8>, i: int, bv: BuildingV, version: u8, r: int)
    requires
        0 <= r < bv.roots.len(),
        canonical_root(bv.roots[r], version),
        0 <= i,
        i + enc_root(bv, version, r).len() <= s.len(),
        s.subrange(i, i + enc_root(bv, version, r).len()) == enc_root(bv, version, r),
    ensures
        p_root(s, i, version) == Some(
            (
                i + enc_root(bv, version, r).len(),
                (
                    bv.roots[r],
                    if version >= 2 {
                        last_block_index(bv, r)
                    } else {
                        0
                    },
                ),
            ),
        ),
{
    let root = bv.roots[r];
    let last = last_block_index(bv, r);
    let e1 = enc_triple_u32(root.position);
    let e2 = enc_triple_u32(root.rotation);
    let e3: Seq<u8> = if version >= 1 {
        enc_triple_u32(root.bounds_center) + enc_triple_u32(root.bounds_size)
    } else {
        Seq::empty()
    };
    let e4: Seq<u8> = if version >= 2 {
        enc_u16(last)
    } else {
        Seq::empty()
    };
    // peel the record right to left along its own association
    lemma_split(s, i, e1 + e2 + e3, e4);
    lemma_split(s, i, e1 + e2, e3);
    lemma_split(s, i, e1, e2);
    lemma_p_triple_u32(s, i, root.position);
    lemma_p_triple_u32(s, i + 12, root.rotation);
    let b = i + 24;
    if version >= 1 {
        lemma_split(s, b, enc_triple_u32(root.bounds_center), enc_triple_u32(root.bounds_size));
        lemma_p_triple_u32(s, b, root.bounds_center);
        lemma_p_triple_u32(s, b + 12, root.bounds_size);
    }
    if version >= 2 {
        lemma_p_u16(s, b + e3.len(), last);
    }
}

/// The lasts the roots parse to.
pub open spec fn lasts_of(bv: BuildingV, version: u8, n: int) -> Seq<u16> {
    Seq::new(
        n as nat,
        |r: int|
            if version >= 2 {
                last_block_index(bv, r)
            } else {
                0
            },
    )
}

proof fn lemma_p_roots_enc(s: Seq<u8>, i: int, bv: BuildingV, version: u8, n: int)
    requires
        0 <= n <= bv.roots.len(),
        forall|r: int| 0 <= r < bv.roots.len() ==> canonical_root(#[trigger] bv.roots[r], version),
        0 <= i,
        i + enc_roots(bv, version, n).len() <= s.len(),
        s.subrange(i, i + enc_roots(bv, version, n).len()) == enc_roots(bv, version, n),
    ensures
        p_roots(s, i, version, n) == Some(
            (i + enc_roots(bv, version, n).len(), (bv.roots.take(n), lasts_of(bv, version, n))),
        ),
    decreases n,
{
    if n <= 0 {
        assert(bv.roots.take(0) =~= Seq::<RootV>::empty());
        assert(lasts_of(bv, version, 0) =~= Seq::<u16>::empty());
    } else {
        let e1 = enc_roots(bv, version, n - 1);
        let e2 = enc_root(bv, version, n - 1);
        lemma_split(s, i, e1, e2);
        lemma_p_roots_enc(s, i, bv, version, n - 1);
        lemma_p_root_enc(s, i + e1.len(), bv, version, n - 1);
        assert(bv.roots.take(n - 1).push(bv.roots[n - 1]) =~= bv.roots.take(n));
        assert(lasts_of(bv, version, n - 1).push(
            if version >= 2 {
                last_block_index(bv, n - 1)
            } else {
                0
            },
        ) =~= lasts_of(bv, version, n));
    }
}

// ---------------------------------------------------------------------------
// Metadata records
// ---------------------------------------------------------------------------

proof fn lemma_header16(nf: int, hasv: bool)
    requires
        0 <= nf <= 0x7FFF,
    ensures
        ((nf + if hasv {
            0x8000int
        } else {
            0
        }) as u16) as int % 0x8000 == nf,
        (((nf + if hasv {
            0x8000int
        } else {
            0
        }) as u16) >= 0x8000) == hasv,
{
    if hasv {
        assert((nf + 0x8000) % 0x8000 == nf) by (nonlinear_arith)
            requires
                0 <= nf < 0x8000,
        ;
    } else {
        assert(nf % 0x8000 == nf) by (nonlinear_arith)
            requires
                0 <= nf < 0x8000,
        ;
    }
}

proof fn lemma_header8(nf: int, hasv: bool)
    requires
        0 <= nf <= 0x7F,
    ensures
        ((nf + if hasv {
            0x80int
        } else {
            0
        }) as u8) as int % 0x80 == nf,
        (((nf + if hasv {
            0x80int
        } else {
            0
        }) as u8) >= 0x80) == hasv,
{
    if hasv {
        assert((nf + 0x80) % 0x80 == nf) by (nonlinear_arith)
            requires
                0 <= nf < 0x80,
        ;
    } else {
        assert(nf % 0x80 == nf) by (nonlinear_arith)
            requires
                0 <= nf < 0x80,
        ;
    }
}

proof fn lemma_folded_byte(dd: int, hasc: bool, hasg: bool)
    requires
        0 <= dd <= 0x3F,
    ensures
        ({
            let h = (dd + (if hasc {
                0x40int
            } else {
                0
            }) + (if hasg {
                0x80int
            } else {
                0
            })) as u8;
            &&& (h as int) % 0x40 == dd
            &&& ((h as int) / 0x40) % 2 == 1 <==> hasc
            &&& (h >= 0x80) == hasg
        }),
{
    let c: int = if hasc {
        1
    } else {
        0
    };
    let g: int = if hasg {
        1
    } else {
        0
    };
    assert((dd + 0x40 * c + 0x80 * g) % 0x40 == dd && ((dd + 0x40 * c + 0x80 * g) / 0x40) % 2 == c)
        by (nonlinear_arith)
        requires
            0 <= dd < 0x40,
            0 <= c <= 1,
            0 <= g <= 1,
    ;
}

proof fn lemma_p_toggles_enc(s: Seq<u8>, i: int, ts: Seq<bool>, version: u8)
    requires
        version <= 4 ==> ts.len() <= 0xFFFF,
        version > 4 ==> ts.len() <= 0xFF,
        0 <= i,
        i + crate::wire::enc_toggles(ts, version).len() <= s.len(),
        s.subrange(i, i + crate::wire::enc_toggles(ts, version).len()) == crate::wire::enc_toggles(
            ts,
            version,
        ),
    ensures
        crate::parse2::p_toggles(s, i, version) == Some(
            (i + crate::wire::enc_toggles(ts, version).len(), ts),
        ),
{
    if version <= 4 {
        lemma_split(s, i, enc_u16(ts.len() as u16), crate::wire::enc_toggle_bytes(ts, ts.len() as int));
        lemma_p_u16(s, i, ts.len() as u16);
        lemma_p_toggle_bytes(s, i + 2, ts, ts.len() as int);
        assert(ts.take(ts.len() as int) =~= ts);
    } else {
        let body = crate::primitives::enc_bools(ts);
        lemma_split(s, i, seq![ts.len() as u8], body);
        assert(s.subrange(i, i + 1)[0] == s[i]);
        let j = i + 1;
        let n = ts.len() as u8;
        let nb = (n + 7) as int / 8;
        assert(body.len() == nb);
        assert(s.subrange(j, j + nb) == body);
        crate::primitives::lemma_bools_round(ts);
        assert(crate::primitives::p_bools(body, n as nat) == ts);
    }
}

proof fn lemma_p_field_group_enc(s: Seq<u8>, i: int, g: Seq<u16>, version: u8, nblocks: int)
    requires
        refs_in_range(g, nblocks),
        version <= 4 ==> g.len() <= 0xFFFF,
        version > 4 ==> g.len() <= 0xFF,
        0 <= i,
        i + crate::wire::enc_field_group(g, nblocks, version).len() <= s.len(),
        s.subrange(i, i + crate::wire::enc_field_group(g, nblocks, version).len())
            == crate::wire::enc_field_group(g, nblocks, version),
    ensures
        crate::parse2::p_field_group(s, i, version, nblocks) == Some(
            (i + crate::wire::enc_field_group(g, nblocks, version).len(), g),
        ),
{
    crate::wire::lemma_kept_refs_id(g, nblocks);
    let body = crate::wire::enc_u16s(g, g.len() as int);
    if version <= 4 {
        lemma_split(s, i, enc_u16(g.len() as u16), body);
        lemma_p_u16(s, i, g.len() as u16);
        lemma_p_u16s(s, i + 2, g, g.len() as int);
    } else {
        lemma_split(s, i, seq![g.len() as u8], body);
        assert(s.subrange(i, i + 1)[0] == s[i]);
        lemma_p_u16s(s, i + 1, g, g.len() as int);
    }
    assert(g.take(g.len() as int) =~= g);
}

proof fn lemma_p_field_groups_enc(
    s: Seq<u8>,
    i: int,
    fs: Seq<Seq<u16>>,
    version: u8,
    nblocks: int,
    n: int,
)
    requires
        0 <= n <= fs.len(),
        forall|g: int| 0 <= g < fs.len() ==> refs_in_range(#[trigger] fs[g], nblocks),
        forall|g: int|
            0 <= g < fs.len() ==> (if version <= 4 {
                kept_refs(#[trigger] fs[g], nblocks).len() <= 0xFFFF
            } else {
                kept_refs(#[trigger] fs[g], nblocks).len() <= 0xFF
            }),
        0 <= i,
        i + crate::wire::enc_field_groups(fs, nblocks, version, n).len() <= s.len(),
        s.subrange(i, i + crate::wire::enc_field_groups(fs, nblocks, version, n).len())
            == crate::wire::enc_field_groups(fs, nblocks, version, n),
    ensures
        crate::parse2::p_field_groups(s, i, version, nblocks, n) == Some(
            (i + crate::wire::enc_field_groups(fs, nblocks, version, n).len(), fs.take(n)),
        ),
    decreases n,
{
    if n <= 0 {
        assert(fs.take(0) =~= Seq::<Seq<u16>>::empty());
    } else {
        let e1 = crate::wire::enc_field_groups(fs, nblocks, version, n - 1);
        let e2 = crate::wire::enc_field_group(fs[n - 1], nblocks, version);
        lemma_split(s, i, e1, e2);
        lemma_p_field_groups_enc(s, i, fs, version, nblocks, n - 1);
        crate::wire::lemma_kept_refs_id(fs[n - 1], nblocks);
        lemma_p_field_group_enc(s, i + e1.len(), fs[n - 1], version, nblocks);
        assert(fs.take(n - 1).push(fs[n - 1]) =~= fs.take(n));
    }
}

proof fn lemma_p_vector_body_enc(s: Seq<u8>, i: int, m: MetadataV, packed: bool)
    requires
        packed ==> m.vectors.len() == 0,
        !packed ==> m.vectors_packed == (PackedVectorsV { lo: 0, hi: 0, data: Seq::empty() }),
        packed ==> m.vectors_packed.data.len() > 0,
        !packed ==> m.vectors.len() > 0,
        0 <= i,
        i + crate::wire::enc_vector_body(m, packed).len() <= s.len(),
        s.subrange(i, i + crate::wire::enc_vector_body(m, packed).len())
            == crate::wire::enc_vector_body(m, packed),
    ensures
        crate::parse2::p_vector_body(
            s,
            i,
            if packed {
                m.vectors_packed.data.len() as int
            } else {
                m.vectors.len() as int
            },
            packed,
        ) == Some(
            (
                i + crate::wire::enc_vector_body(m, packed).len(),
                (m.vectors, m.vectors_packed),
            ),
        ),
{
    if packed {
        let lo = m.vectors_packed.lo;
        let hi = m.vectors_packed.hi;
        let data = m.vectors_packed.data;
        let e1: Seq<u8> = seq![lo as u8, hi as u8];
        let e2 = crate::wire::enc_triples_u16(data, data.len() as int);
        lemma_split(s, i, e1, e2);
        assert(s.subrange(i, i + 2)[0] == s[i] && s.subrange(i, i + 2)[1] == s[i + 1]);
        assert((lo as u8) as i8 == lo) by (bit_vector);
        assert((hi as u8) as i8 == hi) by (bit_vector);
        lemma_p_triples_u16(s, i + 2, data, data.len() as int);
        assert(data.take(data.len() as int) =~= data);
        assert(m.vectors =~= Seq::<(u32, u32, u32)>::empty());
    } else {
        lemma_p_triples_u32(s, i, m.vectors, m.vectors.len() as int);
        assert(m.vectors.take(m.vectors.len() as int) =~= m.vectors);
    }
}

#[verifier::rlimit(100)]
proof fn lemma_p_vf_enc(s: Seq<u8>, i: int, m: MetadataV, version: u8, id: u8, nblocks: int)
    requires
        version <= 6,
        canonical_metadata(m, version, id, nblocks),
        crate::wire::metadata_fits(m, version, id, nblocks),
        0 <= i,
        i + crate::wire::enc_vectors_and_fields(m, version, id, nblocks).len() <= s.len(),
        s.subrange(i, i + crate::wire::enc_vectors_and_fields(m, version, id, nblocks).len())
            == crate::wire::enc_vectors_and_fields(m, version, id, nblocks),
    ensures
        crate::parse2::p_vectors_and_fields(s, i, version, id, nblocks) == Some(
            (
                i + crate::wire::enc_vectors_and_fields(m, version, id, nblocks).len(),
                (m.fields, m.vectors, m.vectors_packed),
            ),
        ),
{
    let packed = vectors_packed_form(version, id);
    let vcount = crate::wire::vector_count(m, version, id);
    let groups = crate::wire::enc_field_groups(m.fields, nblocks, version, m.fields.len() as int);
    assert forall|g: int|
        0 <= g < m.fields.len() implies kept_refs(#[trigger] m.fields[g], nblocks)
        == m.fields[g] by {
        crate::wire::lemma_kept_refs_id(m.fields[g], nblocks);
    }
    if version <= 4 {
        let h = (m.fields.len() + if vcount > 0 {
            0x8000int
        } else {
            0
        }) as u16;
        let vpart: Seq<u8> = if vcount > 0 {
            enc_u16(vcount as u16) + crate::wire::enc_vector_body(m, packed)
        } else {
            Seq::empty()
        };
        lemma_split(s, i, enc_u16(h) + vpart, groups);
        lemma_split(s, i, enc_u16(h), vpart);
        lemma_p_u16(s, i, h);
        lemma_header16(m.fields.len() as int, vcount > 0);
        if vcount > 0 {
            lemma_split(s, i + 2, enc_u16(vcount as u16), crate::wire::enc_vector_body(m, packed));
            lemma_p_u16(s, i + 2, vcount as u16);
            lemma_p_vector_body_enc(s, i + 4, m, packed);
        } else {
            assert(m.vectors =~= Seq::<(u32, u32, u32)>::empty());
            if packed {
                assert(m.vectors_packed =~= (PackedVectorsV { lo: 0, hi: 0, data: Seq::empty() }));
            }
        }
        lemma_p_field_groups_enc(
            s,
            i + 2 + vpart.len(),
            m.fields,
            version,
            nblocks,
            m.fields.len() as int,
        );
        assert(m.fields.take(m.fields.len() as int) =~= m.fields);
    } else if spec_custom_block(id) {
        let vpart: Seq<u8> = if vcount > 0 {
            crate::wire::enc_vector_body(m, packed)
        } else {
            Seq::empty()
        };
        lemma_split(s, i, seq![vcount as u8], vpart);
        assert(s.subrange(i, i + 1)[0] == s[i]);
        if vcount > 0 {
            lemma_p_vector_body_enc(s, i + 1, m, packed);
        } else {
            assert(m.vectors =~= Seq::<(u32, u32, u32)>::empty());
            assert(m.vectors_packed =~= (PackedVectorsV { lo: 0, hi: 0, data: Seq::empty() }));
        }
        assert(m.fields =~= Seq::<Seq<u16>>::empty());
    } else {
        let h = (m.fields.len() + if vcount > 0 {
            0x80int
        } else {
            0
        }) as u8;
        let vpart: Seq<u8> = if vcount > 0 {
            seq![vcount as u8] + crate::wire::enc_vector_body(m, packed)
        } else {
            Seq::empty()
        };
        lemma_split(s, i, seq![h] + vpart, groups);
        lemma_split(s, i, seq![h], vpart);
        assert(s.subrange(i, i + 1)[0] == s[i]);
        lemma_header8(m.fields.len() as int, vcount > 0);
        if vcount > 0 {
            lemma_split(s, i + 1, seq![vcount as u8], crate::wire::enc_vector_body(m, packed));
            assert(s.subrange(i + 1, i + 2)[0] == s[i + 1]);
            lemma_p_vector_body_enc(s, i + 2, m, packed);
        } else {
            assert(m.vectors =~= Seq::<(u32, u32, u32)>::empty());
        }
        lemma_p_field_groups_enc(
            s,
            i + 1 + vpart.len(),
            m.fields,
            version,
            nblocks,
            m.fields.len() as int,
        );
        assert(m.fields.take(m.fields.len() as int) =~= m.fields);
    }
}

proof fn lemma_p_gradient_enc(s: Seq<u8>, i: int, g: GradientV)
    requires
        crate::encode::gradient_fits(g),
        0 <= i,
        i + crate::wire::enc_gradient(g).len() <= s.len(),
        s.subrange(i, i + crate::wire::enc_gradient(g).len()) == crate::wire::enc_gradient(g),
    ensures
        crate::parse2::p_gradient(s, i) == Some((i + crate::wire::enc_gradient(g).len(), g)),
{
    let a = enc_u16(g.color_keys.len() as u16);
    let b = crate::wire::enc_quads(g.color_keys, g.color_keys.len() as int);
    let c = enc_u16(g.color_time_keys.len() as u16);
    let d = crate::wire::enc_u32s(g.color_time_keys, g.color_time_keys.len() as int);
    let e = enc_u16(g.alpha_keys.len() as u16);
    let f = crate::wire::enc_u32s(g.alpha_keys, g.alpha_keys.len() as int);
    let gg = enc_u16(g.alpha_time_keys.len() as u16);
    let h = crate::wire::enc_u32s(g.alpha_time_keys, g.alpha_time_keys.len() as int);
    lemma_split(s, i, a + b + c + d + e + f + gg, h);
    lemma_split(s, i, a + b + c + d + e + f, gg);
    lemma_split(s, i, a + b + c + d + e, f);
    lemma_split(s, i, a + b + c + d, e);
    lemma_split(s, i, a + b + c, d);
    lemma_split(s, i, a + b, c);
    lemma_split(s, i, a, b);
    let i1 = i + a.len();
    let i2 = i1 + b.len();
    let i3 = i2 + c.len();
    let i4 = i3 + d.len();
    let i5 = i4 + e.len();
    let i6 = i5 + f.len();
    let i7 = i6 + gg.len();
    lemma_p_u16(s, i, g.color_keys.len() as u16);
    lemma_p_quads(s, i1, g.color_keys, g.color_keys.len() as int);
    lemma_p_u16(s, i2, g.color_time_keys.len() as u16);
    lemma_p_u32s(s, i3, g.color_time_keys, g.color_time_keys.len() as int);
    lemma_p_u16(s, i4, g.alpha_keys.len() as u16);
    lemma_p_u32s(s, i5, g.alpha_keys, g.alpha_keys.len() as int);
    lemma_p_u16(s, i6, g.alpha_time_keys.len() as u16);
    lemma_p_u32s(s, i7, g.alpha_time_keys, g.alpha_time_keys.len() as int);
    assert(g.color_keys.take(g.color_keys.len() as int) =~= g.color_keys);
    assert(g.color_time_keys.take(g.color_time_keys.len() as int) =~= g.color_time_keys);
    assert(g.alpha_keys.take(g.alpha_keys.len() as int) =~= g.alpha_keys);
    assert(g.alpha_time_keys.take(g.alpha_time_keys.len() as int) =~= g.alpha_time_keys);
}

proof fn lemma_p_gradients_enc(s: Seq<u8>, i: int, gs: Seq<GradientV>, n: int)
    requires
        0 <= n <= gs.len(),
        forall|q: int| 0 <= q < gs.len() ==> crate::encode::gradient_fits(#[trigger] gs[q]),
        0 <= i,
        i + crate::wire::enc_gradients(gs, n).len() <= s.len(),
        s.subrange(i, i + crate::wire::enc_gradients(gs, n).len()) == crate::wire::enc_gradients(
            gs,
            n,
        ),
    ensures
        crate::parse2::p_gradients(s, i, n) == Some(
            (i + crate::wire::enc_gradients(gs, n).len(), gs.take(n)),
        ),
    decreases n,
{
    if n <= 0 {
        assert(gs.take(0) =~= Seq::<GradientV>::empty());
    } else {
        let e1 = crate::wire::enc_gradients(gs, n - 1);
        let e2 = crate::wire::enc_gradient(gs[n - 1]);
        lemma_split(s, i, e1, e2);
        lemma_p_gradients_enc(s, i, gs, n - 1);
        lemma_p_gradient_enc(s, i + e1.len(), gs[n - 1]);
        assert(gs.take(n - 1).push(gs[n - 1]) =~= gs.take(n));
    }
}

#[verifier::rlimit(100)]
proof fn lemma_p_tail_enc(s: Seq<u8>, i: int, m: MetadataV, version: u8, id: u8, nblocks: int)
    requires
        version <= 6,
        crate::wire::metadata_fits(m, version, id, nblocks),
        0 <= i,
        i + crate::wire::enc_tail_arrays(m, version).len() <= s.len(),
        s.subrange(i, i + crate::wire::enc_tail_arrays(m, version).len())
            == crate::wire::enc_tail_arrays(m, version),
    ensures
        crate::parse2::p_tail_arrays(s, i, version) == Some(
            (
                i + crate::wire::enc_tail_arrays(m, version).len(),
                (m.dropdowns, m.colors, m.gradients),
            ),
        ),
{
    let grads = crate::wire::enc_gradients(m.gradients, m.gradients.len() as int);
    let colors = crate::wire::enc_quads(m.colors, m.colors.len() as int);
    if version <= 4 {
        let a = enc_u16(m.dropdowns.len() as u16);
        let b = crate::wire::enc_i32s(m.dropdowns, m.dropdowns.len() as int);
        let c = enc_u16(m.colors.len() as u16);
        let e = enc_u16(m.gradients.len() as u16);
        lemma_split(s, i, a + b + c + colors + e, grads);
        lemma_split(s, i, a + b + c + colors, e);
        lemma_split(s, i, a + b + c, colors);
        lemma_split(s, i, a + b, c);
        lemma_split(s, i, a, b);
        let i1 = i + a.len();
        let i2 = i1 + b.len();
        let i3 = i2 + c.len();
        let i4 = i3 + colors.len();
        let i5 = i4 + e.len();
        lemma_p_u16(s, i, m.dropdowns.len() as u16);
        lemma_p_i32s(s, i1, m.dropdowns, m.dropdowns.len() as int);
        lemma_p_u16(s, i2, m.colors.len() as u16);
        lemma_p_quads(s, i3, m.colors, m.colors.len() as int);
        lemma_p_u16(s, i4, m.gradients.len() as u16);
        lemma_p_gradients_enc(s, i5, m.gradients, m.gradients.len() as int);
        assert(m.dropdowns.take(m.dropdowns.len() as int) =~= m.dropdowns);
        assert(m.colors.take(m.colors.len() as int) =~= m.colors);
        assert(m.gradients.take(m.gradients.len() as int) =~= m.gradients);
    } else {
        let h = (m.dropdowns.len() + if m.colors.len() > 0 {
            0x40int
        } else {
            0
        } + if m.gradients.len() > 0 {
            0x80int
        } else {
            0
        }) as u8;
        let b = crate::wire::enc_dropdown_bytes(m.dropdowns, m.dropdowns.len() as int);
        let cpart: Seq<u8> = if m.colors.len() > 0 {
            seq![m.colors.len() as u8] + colors
        } else {
            Seq::empty()
        };
        let gpart: Seq<u8> = if m.gradients.len() > 0 {
            seq![m.gradients.len() as u8] + grads
        } else {
            Seq::empty()
        };
        lemma_split(s, i, seq![h] + b + cpart, gpart);
        lemma_split(s, i, seq![h] + b, cpart);
        lemma_split(s, i, seq![h], b);
        assert(s.subrange(i, i + 1)[0] == s[i]);
        lemma_folded_byte(m.dropdowns.len() as int, m.colors.len() > 0, m.gradients.len() > 0);
        let i1 = i + 1;
        crate::parse::lemma_p_dropdown_bytes(s, i1, m.dropdowns, m.dropdowns.len() as int);
        assert(m.dropdowns.take(m.dropdowns.len() as int) =~= m.dropdowns);
        let i2 = i1 + b.len();
        if m.colors.len() > 0 {
            lemma_split(s, i2, seq![m.colors.len() as u8], colors);
            assert(s.subrange(i2, i2 + 1)[0] == s[i2]);
            lemma_p_quads(s, i2 + 1, m.colors, m.colors.len() as int);
            assert(m.colors.take(m.colors.len() as int) =~= m.colors);
        } else {
            assert(m.colors =~= Seq::<(u32, u32, u32, u32)>::empty());
        }
        let i3 = i2 + cpart.len();
        if m.gradients.len() > 0 {
            lemma_split(s, i3, seq![m.gradients.len() as u8], grads);
            assert(s.subrange(i3, i3 + 1)[0] == s[i3]);
            lemma_p_gradients_enc(s, i3 + 1, m.gradients, m.gradients.len() as int);
            assert(m.gradients.take(m.gradients.len() as int) =~= m.gradients);
        } else {
            assert(m.gradients =~= Seq::<GradientV>::empty());
        }
    }
}

#[verifier::rlimit(100)]
proof fn lemma_p_settings_enc(s: Seq<u8>, i: int, m: MetadataV, id: u8)
    requires
        canonical_settings(m, id),
        id == MATH_BLOCK_ID ==> match m.type_settings {
            TypeSettingsV::MathBlock { function, incoming_connections_order, slots } => {
                &&& vstd::utf8::encode_utf8(function).len() <= 0xFFFF
                &&& incoming_connections_order.len() <= 0xFF
                &&& slots.len() <= 0xFF
            },
            TypeSettingsV::Empty => true,
        },
        0 <= i,
        i + crate::wire::enc_type_settings(m, id).len() <= s.len(),
        s.subrange(i, i + crate::wire::enc_type_settings(m, id).len())
            == crate::wire::enc_type_settings(m, id),
    ensures
        crate::parse2::p_type_settings(s, i, id) == Some(
            (i + crate::wire::enc_type_settings(m, id).len(), m.type_settings),
        ),
{
    if id == MATH_BLOCK_ID {
        match m.type_settings {
            TypeSettingsV::MathBlock { function, incoming_connections_order, slots } => {
                let fb = vstd::utf8::encode_utf8(function);
                let a = enc_u16(fb.len() as u16);
                let c: Seq<u8> = seq![incoming_connections_order.len() as u8];
                let e: Seq<u8> = seq![slots.len() as u8];
                lemma_split(s, i, a + fb + c + incoming_connections_order + e, slots);
                lemma_split(s, i, a + fb + c + incoming_connections_order, e);
                lemma_split(s, i, a + fb + c, incoming_connections_order);
                lemma_split(s, i, a + fb, c);
                lemma_split(s, i, a, fb);
                lemma_p_u16(s, i, fb.len() as u16);
                let i1 = i + 2;
                let i2 = i1 + fb.len();
                let i3 = i2 + 1;
                let i4 = i3 + incoming_connections_order.len();
                let i5 = i4 + 1;
                vstd::utf8::encode_utf8_valid_utf8(function);
                vstd::utf8::encode_utf8_decode_utf8(function);
                assert(s.subrange(i2, i2 + 1)[0] == s[i2]);
                assert(s.subrange(i4, i4 + 1)[0] == s[i4]);
                assert(!(fb.len() == 0 && incoming_connections_order.len() == 0 && slots.len()
                    == 0));
            },
            TypeSettingsV::Empty => {
                let a = enc_u16(0);
                lemma_split(s, i, a + seq![0u8], seq![0u8]);
                lemma_split(s, i, a, seq![0u8]);
                lemma_p_u16(s, i, 0);
                assert(s.subrange(i + 2, i + 3)[0] == s[i + 2]);
                assert(s.subrange(i + 3, i + 4)[0] == s[i + 3]);
                assert(s.subrange(i + 2, i + 2) =~= Seq::<u8>::empty());
                assert(vstd::utf8::valid_utf8(Seq::<u8>::empty()));
            },
        }
    }
}

/// One whole metadata record parses back to itself.
#[verifier::rlimit(100)]
proof fn lemma_p_metadata_enc(s: Seq<u8>, i: int, m: MetadataV, version: u8, id: u8, nblocks: int)
    requires
        version <= 6,
        canonical_metadata(m, version, id, nblocks),
        crate::wire::metadata_fits(m, version, id, nblocks),
        0 <= i,
        i + crate::wire::enc_metadata(m, version, id, nblocks).len() <= s.len(),
        s.subrange(i, i + crate::wire::enc_metadata(m, version, id, nblocks).len())
            == crate::wire::enc_metadata(m, version, id, nblocks),
    ensures
        crate::parse2::p_metadata(s, i, version, id, nblocks) == Some(
            (i + crate::wire::enc_metadata(m, version, id, nblocks).len(), m),
        ),
{
    let a = crate::wire::enc_toggles(m.toggles, version);
    let b = enc_u16(m.values.len() as u16);
    let c = crate::wire::enc_u32s(m.values, m.values.len() as int);
    let d = crate::wire::enc_vectors_and_fields(m, version, id, nblocks);
    let e = crate::wire::enc_tail_arrays(m, version);
    let f = crate::wire::enc_type_settings(m, id);
    lemma_split(s, i, a + b + c + d + e, f);
    lemma_split(s, i, a + b + c + d, e);
    lemma_split(s, i, a + b + c, d);
    lemma_split(s, i, a + b, c);
    lemma_split(s, i, a, b);
    let i1 = i + a.len();
    let i2 = i1 + b.len();
    let i3 = i2 + c.len();
    let i4 = i3 + d.len();
    let i5 = i4 + e.len();
    lemma_p_toggles_enc(s, i, m.toggles, version);
    lemma_p_u16(s, i1, m.values.len() as u16);
    lemma_p_u32s(s, i2, m.values, m.values.len() as int);
    assert(m.values.take(m.values.len() as int) =~= m.values);
    lemma_p_vf_enc(s, i3, m, version, id, nblocks);
    lemma_p_tail_enc(s, i4, m, version, id, nblocks);
    lemma_p_settings_enc(s, i5, m, id);
    assert(crate::parse2::p_metadata(s, i, version, id, nblocks) matches Some((j, mm)) && j == i5
        + f.len() && mm =~= m);
}

// ---------------------------------------------------------------------------
// Block records
// ---------------------------------------------------------------------------

/// The parse state after a block's head: transform, type and enable
/// fields set, the interactive and tail fields still at their defaults.
pub open spec fn head_state(blk: BlockV) -> BlockV {
    BlockV {
        name: None,
        enable_state: 0,
        connections: Seq::empty(),
        load: None,
        color: None,
        metadata: None,
        ..blk
    }
}

/// The parse state after the interactive group: only metadata and color
/// still defaulted.
pub open spec fn inter_state(blk: BlockV) -> BlockV {
    BlockV { color: None, metadata: None, ..blk }
}

/// The flag byte's bits are the block's flag list.
proof fn lemma_block_bits(bv: BuildingV, version: u8, idx: int)
    requires
        0 <= idx < bv.blocks.len(),
    ensures
        ({
            let blk = bv.blocks[idx];
            let fb = crate::wire::flags_byte(bv, version, idx);
            let nb = bv.blocks.len() as int;
            &&& crate::primitives::nth_bit(fb, 0) == (blk.name is Some)
            &&& crate::primitives::nth_bit(fb, 1) == (kept_refs(blk.connections, nb).len() > 0)
            &&& crate::primitives::nth_bit(fb, 2) == (blk.metadata is None)
            &&& crate::primitives::nth_bit(fb, 3) == (blk.color is None)
            &&& crate::primitives::nth_bit(fb, 4) == (kept_load(blk.load, nb) is Some)
            &&& crate::primitives::nth_bit(fb, 5)
            &&& crate::primitives::nth_bit(fb, 6) == blk.overdriven
            &&& crate::primitives::nth_bit(fb, 7) == crate::wire::flag_nonzero(blk, version)
        }),
{
    let bs = crate::wire::block_flags(bv, version, idx);
    crate::primitives::lemma_bools_byte_bits(bs, 0, 0);
    crate::primitives::lemma_bools_byte_bits(bs, 0, 1);
    crate::primitives::lemma_bools_byte_bits(bs, 0, 2);
    crate::primitives::lemma_bools_byte_bits(bs, 0, 3);
    crate::primitives::lemma_bools_byte_bits(bs, 0, 4);
    crate::primitives::lemma_bools_byte_bits(bs, 0, 5);
    crate::primitives::lemma_bools_byte_bits(bs, 0, 6);
    crate::primitives::lemma_bools_byte_bits(bs, 0, 7);
}

/// A block's head parses back to the head state.
#[verifier::rlimit(100)]
proof fn lemma_p_block_head_enc(
    s: Seq<u8>,
    i: int,
    bv: BuildingV,
    version: u8,
    idx: int,
    assigned: u16,
)
    requires
        version <= 6,
        0 <= idx < bv.blocks.len(),
        bv.blocks.len() <= 0xFFFF,
        canonical_block(bv, version, idx),
        version >= 2 ==> assigned == bv.blocks[idx].root,
        0 <= i,
        i + crate::wire::enc_block_head(bv, version, idx).len() <= s.len(),
        s.subrange(i, i + crate::wire::enc_block_head(bv, version, idx).len())
            == crate::wire::enc_block_head(bv, version, idx),
    ensures
        crate::parse3::p_block(s, i, ctx_of(bv, version), assigned)
            == crate::parse3::p_blk_name(
            s,
            i + crate::wire::enc_block_head(bv, version, idx).len(),
            ctx_of(bv, version),
            crate::wire::flags_byte(bv, version, idx),
            head_state(bv.blocks[idx]),
        ),
{
    let ctx = ctx_of(bv, version);
    let blk = bv.blocks[idx];
    let fb = crate::wire::flags_byte(bv, version, idx);
    lemma_block_bits(bv, version, idx);
    let a: Seq<u8> = if version == 0 {
        crate::wire::enc_triple_u32(blk.position)
    } else {
        crate::wire::enc_triple_i16(blk.position_in_bounds)
    };
    let b: Seq<u8> = if version >= 6 && rotation_lookup(bv) {
        let slot = slot_in(rot_catalog(bv), rot_key_of(blk.rotation));
        if single_byte_rotation(bv) {
            seq![slot as u8]
        } else {
            enc_u16(slot as u16)
        }
    } else {
        enc_triple_u16(blk.rotation)
    };
    let c: Seq<u8> = seq![blk.id];
    let d: Seq<u8> = if version < 2 {
        enc_u16(blk.root)
    } else {
        Seq::empty()
    };
    let e: Seq<u8> = seq![fb];
    let inter = interactable(blk.id, version);
    let f: Seq<u8> = if inter || crate::wire::block_flags(bv, version, idx)[7] {
        seq![blk.enable_state_current]
    } else {
        Seq::empty()
    };
    lemma_split(s, i, a + b + c + d + e, f);
    lemma_split(s, i, a + b + c + d, e);
    lemma_split(s, i, a + b + c, d);
    lemma_split(s, i, a + b, c);
    lemma_split(s, i, a, b);
    let i1 = i + a.len();
    let i2 = i1 + b.len();
    let i3 = i2 + c.len();
    let i4 = i3 + d.len();
    let i5 = i4 + e.len();
    // position
    let g1 = if version == 0 {
        BlockV { position: blk.position, ..crate::parse3::empty_block() }
    } else {
        BlockV { position_in_bounds: blk.position_in_bounds, ..crate::parse3::empty_block() }
    };
    if version == 0 {
        lemma_p_triple_u32(s, i, blk.position);
    } else {
        lemma_p_triple_i16(s, i, blk.position_in_bounds);
    }
    assert(crate::parse3::p_block(s, i, ctx, assigned) == crate::parse3::p_blk_rot(
        s,
        i1,
        ctx,
        assigned,
        g1,
    )) by {
        reveal(crate::parse3::p_block);
    }
    // rotation
    let g2 = BlockV { rotation: blk.rotation, ..g1 };
    if version >= 6 && rotation_lookup(bv) {
        let cat = rot_catalog(bv);
        let key = rot_key_of(blk.rotation);
        let slot = slot_in(cat, key);
        lemma_rot_catalog_contains(bv, idx);
        lemma_slot_in_props(cat, key);
        lemma_rot_key_round(blk.rotation);
        assert(ctx.rcat[slot] == (key_rot0(cat[slot]), key_rot1(cat[slot]), key_rot2(cat[slot])));
        assert(ctx.rcat[slot] == blk.rotation);
        if single_byte_rotation(bv) {
            assert(s.subrange(i1, i1 + 1)[0] == s[i1]);
            assert((slot as u8) as int == slot);
        } else {
            lemma_p_u16(s, i1, slot as u16);
            assert((slot as u16) as int == slot);
        }
    } else {
        lemma_p_triple_u16(s, i1, blk.rotation);
    }
    assert(crate::parse3::p_blk_rot(s, i1, ctx, assigned, g1) == crate::parse3::p_blk_id(
        s,
        i2,
        ctx,
        assigned,
        g2,
    )) by {
        reveal(crate::parse3::p_blk_rot);
    }
    // type and owning root
    assert(s.subrange(i2, i2 + 1)[0] == s[i2]);
    let g3 = BlockV { id: blk.id, ..g2 };
    let g4 = BlockV { root: blk.root, ..g3 };
    if version < 2 {
        lemma_p_u16(s, i3, blk.root);
    }
    assert(crate::parse3::p_blk_id(s, i2, ctx, assigned, g2) == crate::parse3::p_blk_flags(
        s,
        i4,
        ctx,
        g4,
    )) by {
        reveal(crate::parse3::p_blk_id);
        reveal(crate::parse3::p_blk_root);
    }
    // flag byte and its checks
    assert(s.subrange(i4, i4 + 1)[0] == s[i4]);
    assert(crate::parse3::p_blk_flags(s, i4, ctx, g4) == crate::parse3::p_blk_esc(
        s,
        i5,
        ctx,
        fb,
        g4,
    )) by {
        reveal(crate::parse3::p_blk_flags);
    }
    // live enable value
    let g5 = BlockV {
        enable_state_current: blk.enable_state_current,
        overdriven: blk.overdriven,
        ..g4
    };
    if inter || crate::wire::block_flags(bv, version, idx)[7] {
        assert(s.subrange(i5, i5 + 1)[0] == s[i5]);
    }
    assert(crate::parse3::p_blk_esc(s, i5, ctx, fb, g4) == crate::parse3::p_blk_name(
        s,
        i5 + f.len(),
        ctx,
        fb,
        g5,
    )) by {
        reveal(crate::parse3::p_blk_esc);
    }
    assert(g5 =~= head_state(blk));
}

/// A block's interactive group parses back to the interactive state.
#[verifier::rlimit(100)]
proof fn lemma_p_block_inter_enc(s: Seq<u8>, i: int, bv: BuildingV, version: u8, idx: int)
    requires
        version <= 6,
        0 <= idx < bv.blocks.len(),
        canonical_block(bv, version, idx),
        crate::wire::block_fits(bv, version, idx),
        0 <= i,
        i + crate::wire::enc_block_inter(bv, version, idx).len() <= s.len(),
        s.subrange(i, i + crate::wire::enc_block_inter(bv, version, idx).len())
            == crate::wire::enc_block_inter(bv, version, idx),
    ensures
        crate::parse3::p_blk_name(
            s,
            i,
            ctx_of(bv, version),
            crate::wire::flags_byte(bv, version, idx),
            head_state(bv.blocks[idx]),
        ) == crate::parse3::p_blk_meta(
            s,
            i + crate::wire::enc_block_inter(bv, version, idx).len(),
            ctx_of(bv, version),
            crate::wire::flags_byte(bv, version, idx),
            inter_state(bv.blocks[idx]),
        ),
{
    let ctx = ctx_of(bv, version);
    let blk = bv.blocks[idx];
    let nb = bv.blocks.len() as int;
    let fb = crate::wire::flags_byte(bv, version, idx);
    lemma_block_bits(bv, version, idx);
    crate::wire::lemma_kept_refs_id(blk.connections, nb);
    let inter = interactable(blk.id, version);
    if inter {
        let a: Seq<u8> = match blk.name {
            Some(n) => crate::primitives::enc_string(n),
            None => Seq::empty(),
        };
        let b: Seq<u8> = seq![blk.enable_state];
        let c: Seq<u8> = match kept_load(blk.load, nb) {
            Some(l) => enc_u16(l),
            None => Seq::empty(),
        };
        let conns = blk.connections;
        let d: Seq<u8> = if conns.len() > 0 {
            (if version < 4 {
                enc_u16(conns.len() as u16)
            } else {
                seq![conns.len() as u8]
            }) + crate::wire::enc_u16s(conns, conns.len() as int)
        } else {
            Seq::empty()
        };
        lemma_split(s, i, a + b + c, d);
        lemma_split(s, i, a + b, c);
        lemma_split(s, i, a, b);
        let i1 = i + a.len();
        let i2 = i1 + b.len();
        let i3 = i2 + c.len();
        // name
        let g6 = BlockV { name: blk.name, ..head_state(blk) };
        match blk.name {
            Some(n) => {
                lemma_p_string(s, i, n);
            },
            None => {},
        }
        assert(crate::parse3::p_blk_name(s, i, ctx, fb, head_state(blk))
            == crate::parse3::p_blk_enable(s, i1, ctx, fb, g6)) by {
            reveal(crate::parse3::p_blk_name);
        }
        // authored enable value
        assert(s.subrange(i1, i1 + 1)[0] == s[i1]);
        let g7 = BlockV { enable_state: blk.enable_state, ..g6 };
        assert(crate::parse3::p_blk_enable(s, i1, ctx, fb, g6) == crate::parse3::p_blk_load(
            s,
            i2,
            ctx,
            fb,
            g7,
        )) by {
            reveal(crate::parse3::p_blk_enable);
        }
        // load link
        let g8 = BlockV { load: blk.load, ..g7 };
        match kept_load(blk.load, nb) {
            Some(l) => {
                lemma_p_u16(s, i2, l);
            },
            None => {},
        }
        assert(crate::parse3::p_blk_load(s, i2, ctx, fb, g7) == crate::parse3::p_blk_conns(
            s,
            i3,
            ctx,
            fb,
            g8,
        )) by {
            reveal(crate::parse3::p_blk_load);
        }
        // connections
        let g9 = BlockV { connections: conns, ..g8 };
        if conns.len() > 0 {
            let hd: Seq<u8> = if version < 4 {
                enc_u16(conns.len() as u16)
            } else {
                seq![conns.len() as u8]
            };
            lemma_split(s, i3, hd, crate::wire::enc_u16s(conns, conns.len() as int));
            if version < 4 {
                lemma_p_u16(s, i3, conns.len() as u16);
            } else {
                assert(s.subrange(i3, i3 + 1)[0] == s[i3]);
            }
            lemma_p_u16s(s, i3 + hd.len(), conns, conns.len() as int);
            assert(conns.take(conns.len() as int) =~= conns);
        }
        assert(crate::parse3::p_blk_conns(s, i3, ctx, fb, g8) == crate::parse3::p_blk_meta(
            s,
            i3 + d.len(),
            ctx,
            fb,
            g9,
        )) by {
            reveal(crate::parse3::p_blk_conns);
            reveal(crate::parse3::p_blk_conn_list);
        }
        assert(g9 =~= inter_state(blk));
    } else {
        // the whole group is gated off; canonical form has it absent
        assert(crate::parse3::p_blk_name(s, i, ctx, fb, head_state(blk))
            == crate::parse3::p_blk_meta(s, i, ctx, fb, inter_state(blk))) by {
            reveal(crate::parse3::p_blk_name);
            reveal(crate::parse3::p_blk_enable);
            reveal(crate::parse3::p_blk_load);
            reveal(crate::parse3::p_blk_conns);
            assert(head_state(blk) =~= inter_state(blk));
        }
    }
}

/// A block's metadata part parses back.
#[verifier::rlimit(100)]
proof fn lemma_p_block_meta_enc(s: Seq<u8>, i: int, bv: BuildingV, version: u8, idx: int)
    requires
        version <= 6,
        0 <= idx < bv.blocks.len(),
        bv.blocks.len() <= 0xFFFF,
        canonical_block(bv, version, idx),
        crate::wire::block_fits(bv, version, idx),
        0 <= i,
        i + crate::wire::enc_block_meta(bv, version, idx).len() <= s.len(),
        s.subrange(i, i + crate::wire::enc_block_meta(bv, version, idx).len())
            == crate::wire::enc_block_meta(bv, version, idx),
    ensures
        crate::parse3::p_blk_meta(
            s,
            i,
            ctx_of(bv, version),
            crate::wire::flags_byte(bv, version, idx),
            inter_state(bv.blocks[idx]),
        ) == crate::parse3::p_blk_color(
            s,
            i + crate::wire::enc_block_meta(bv, version, idx).len(),
            ctx_of(bv, version),
            crate::wire::flags_byte(bv, version, idx),
            BlockV { metadata: bv.blocks[idx].metadata, ..inter_state(bv.blocks[idx]) },
        ),
{
    let ctx = ctx_of(bv, version);
    let blk = bv.blocks[idx];
    let nb = bv.blocks.len() as int;
    let fb = crate::wire::flags_byte(bv, version, idx);
    lemma_block_bits(bv, version, idx);
    match blk.metadata {
        Some(m) => {
            lemma_p_metadata_enc(s, i, m, version, blk.id, nb);
        },
        None => {},
    }
    assert(crate::parse3::p_blk_meta(s, i, ctx, fb, inter_state(blk))
        == crate::parse3::p_blk_color(
        s,
        i + crate::wire::enc_block_meta(bv, version, idx).len(),
        ctx,
        fb,
        BlockV { metadata: blk.metadata, ..inter_state(blk) },
    )) by {
        reveal(crate::parse3::p_blk_meta);
    }
}

/// A block's color part finishes the record.
#[verifier::rlimit(100)]
proof fn lemma_p_block_color_enc(s: Seq<u8>, i: int, bv: BuildingV, version: u8, idx: int)
    requires
        version <= 6,
        0 <= idx < bv.blocks.len(),
        canonical_block(bv, version, idx),
        0 <= i,
        i + crate::wire::enc_block_color(bv, version, idx).len() <= s.len(),
        s.subrange(i, i + crate::wire::enc_block_color(bv, version, idx).len())
            == crate::wire::enc_block_color(bv, version, idx),
    ensures
        crate::parse3::p_blk_color(
            s,
            i,
            ctx_of(bv, version),
            crate::wire::flags_byte(bv, version, idx),
            BlockV { metadata: bv.blocks[idx].metadata, ..inter_state(bv.blocks[idx]) },
        ) == Some(
            (i + crate::wire::enc_block_color(bv, version, idx).len(), bv.blocks[idx]),
        ),
{
    let ctx = ctx_of(bv, version);
    let blk = bv.blocks[idx];
    let fb = crate::wire::flags_byte(bv, version, idx);
    lemma_block_bits(bv, version, idx);
    let b = crate::wire::enc_block_color(bv, version, idx);
    match blk.color {
        Some(col) => {
            if version == 0 {
                assert(s.subrange(i, i + 4)[0] == s[i]);
                assert(s.subrange(i, i + 4)[1] == s[i + 1]);
                assert(s.subrange(i, i + 4)[2] == s[i + 2]);
                assert(s.subrange(i, i + 4)[3] == s[i + 3]);
            } else if version >= 6 && color_lookup(bv) {
                let cat = color_catalog(bv);
                let word = color_word(col);
                let slot = slot_in(cat, word);
                lemma_color_catalog_contains(bv, idx);
                lemma_slot_in_props(cat, word);
                assert(s.subrange(i, i + 1)[0] == s[i]);
                assert(ctx.ccat[slot] == rot_catalog_low(cat[slot]));
                assert(cat[slot] == word);
                assert(word == spec_pack_color(col.0, col.1, col.2) as u64);
                assert(rot_catalog_low(word) == spec_pack_color(col.0, col.1, col.2));
                assert((slot as u8) as int == slot);
            } else {
                lemma_p_u16(s, i, spec_pack_color(col.0, col.1, col.2));
            }
        },
        None => {},
    }
    assert(crate::parse3::p_blk_color(
        s,
        i,
        ctx,
        fb,
        BlockV { metadata: blk.metadata, ..inter_state(blk) },
    ) matches Some((j, bb)) && j == i + b.len() && bb =~= blk) by {
        reveal(crate::parse3::p_blk_color);
    }
}

/// One block record parses back to itself.
proof fn lemma_p_block_enc(
    s: Seq<u8>,
    i: int,
    bv: BuildingV,
    version: u8,
    idx: int,
    assigned: u16,
)
    requires
        version <= 6,
        0 <= idx < bv.blocks.len(),
        bv.blocks.len() <= 0xFFFF,
        canonical_block(bv, version, idx),
        crate::wire::block_fits(bv, version, idx),
        version >= 2 ==> assigned == bv.blocks[idx].root,
        0 <= i,
        i + crate::wire::enc_block(bv, version, idx).len() <= s.len(),
        s.subrange(i, i + crate::wire::enc_block(bv, version, idx).len())
            == crate::wire::enc_block(bv, version, idx),
    ensures
        crate::parse3::p_block(s, i, ctx_of(bv, version), assigned) == Some(
            (i + crate::wire::enc_block(bv, version, idx).len(), bv.blocks[idx]),
        ),
{
    let a = crate::wire::enc_block_head(bv, version, idx);
    let b = crate::wire::enc_block_inter(bv, version, idx);
    let c = crate::wire::enc_block_meta(bv, version, idx);
    let d = crate::wire::enc_block_color(bv, version, idx);
    lemma_split(s, i, a + b + c, d);
    lemma_split(s, i, a + b, c);
    lemma_split(s, i, a, b);
    lemma_p_block_head_enc(s, i, bv, version, idx, assigned);
    lemma_p_block_inter_enc(s, i + a.len(), bv, version, idx);
    lemma_p_block_meta_enc(s, i + a.len() + b.len(), bv, version, idx);
    lemma_p_block_color_enc(s, i + a.len() + b.len() + c.len(), bv, version, idx);
}

/// The boundary list the block parser walks for this building and
/// revision.
pub open spec fn ends_used(bv: BuildingV, version: u8) -> Seq<int> {
    if version >= 2 {
        building_ends(bv)
    } else {
        Seq::empty()
    }
}

proof fn lemma_p_blocks_enc(s: Seq<u8>, i: int, bv: BuildingV, version: u8, n: int)
    requires
        version <= 6,
        crate::model::grouped(bv),
        can_encode(bv, version),
        canonical(bv, version),
        0 <= n <= bv.blocks.len(),
        0 <= i,
        i + crate::wire::enc_blocks(bv, version, n).len() <= s.len(),
        s.subrange(i, i + crate::wire::enc_blocks(bv, version, n).len())
            == crate::wire::enc_blocks(bv, version, n),
    ensures
        crate::parse3::p_blocks(s, i, ctx_of(bv, version), ends_used(bv, version), n) == Some(
            (i + crate::wire::enc_blocks(bv, version, n).len(), bv.blocks.take(n)),
        ),
    decreases n,
{
    if n <= 0 {
        assert(bv.blocks.take(0) =~= Seq::<BlockV>::empty());
    } else {
        let e1 = crate::wire::enc_blocks(bv, version, n - 1);
        let e2 = crate::wire::enc_block(bv, version, n - 1);
        lemma_split(s, i, e1, e2);
        lemma_p_blocks_enc(s, i, bv, version, n - 1);
        let assigned: u16 = if version >= 2 {
            lemma_partition_recovered(bv);
            assert(root_of(building_ends(bv), n - 1) == bv.blocks[n - 1].root as int);
            (root_of(building_ends(bv), n - 1)) as u16
        } else {
            0
        };
        assert(crate::wire::block_fits(bv, version, n - 1));
        assert(canonical_block(bv, version, n - 1));
        lemma_p_block_enc(s, i + e1.len(), bv, version, n - 1, assigned);
        assert(bv.blocks.take(n - 1).push(bv.blocks[n - 1]) =~= bv.blocks.take(n));
    }
}

/// Assembles the stream body from its parsed parts.
#[verifier::rlimit(100)]
proof fn lemma_body_assemble(
    s: Seq<u8>,
    i1: int,
    i2: int,
    i3: int,
    i4: int,
    bv: BuildingV,
    version: u8,
    cats: (bool, Seq<u16>, bool, Seq<(u16, u16, u16)>),
)
    requires
        version <= 6,
        crate::model::grouped(bv),
        bv.roots.len() <= 0xFFFF,
        bv.blocks.len() <= 0xFFFF,
        cats == (
            ctx_of(bv, version).clook,
            ctx_of(bv, version).ccat,
            ctx_of(bv, version).rlook,
            ctx_of(bv, version).rcat,
        ),
        p_u16(s, i1) == Some((i2, bv.roots.len() as u16)),
        p_roots(s, i2, version, bv.roots.len() as int) == Some(
            (i3, (bv.roots, lasts_of(bv, version, bv.roots.len() as int))),
        ),
        p_u16(s, i3) == Some((i4, bv.blocks.len() as u16)),
        crate::parse3::p_blocks(
            s,
            i4,
            ctx_of(bv, version),
            ends_used(bv, version),
            bv.blocks.len() as int,
        ) == Some((s.len() as int, bv.blocks)),
    ensures
        crate::parse3::p_body(s, i1, version, cats) == Some((s.len() as int, bv)),
{
    let nroots = bv.roots.len();
    let nblocks = bv.blocks.len();
    let ctx = crate::parse3::PCtx {
        version,
        nroots: nroots as u16 as int,
        nblocks: nblocks as u16 as int,
        rcat: cats.3,
        rlook: cats.2,
        ccat: cats.1,
        clook: cats.0,
    };
    assert(ctx =~= ctx_of(bv, version));
    lemma_partition_recovered(bv);
    if version >= 2 {
        let lasts = lasts_of(bv, version, nroots as int);
        assert(crate::parse3::ends_of_lasts(lasts) =~= building_ends(bv)) by {
            assert forall|r: int| 0 <= r < nroots implies crate::parse3::ends_of_lasts(lasts)[r]
                == building_ends(bv)[r] by {
                assert(lasts[r] == last_block_index(bv, r));
                assert(end_of_last(last_block_index(bv, r)) == building_ends(bv)[r]);
            }
        }
        assert(ends_ok(building_ends(bv), nblocks as int));
    }
    if version < 2 {
        assert(crate::parse3::blocks_grouped(bv.blocks, ctx.nroots));
    }
    assert(crate::parse3::p_body(s, i1, version, cats) matches Some((j, out)) && j == s.len()
        && out =~= bv);
}

/// The codec's round trip: a grouped building in canonical
/// form whose counts fit the chosen revision decodes from its own encoding
/// unchanged — every integer, string and graph-index field comes back
/// exactly, at every supported revision.
#[verifier::rlimit(100)]
pub proof fn lemma_stream_round_trip(bv: BuildingV, version: u8)
    requires
        crate::model::grouped(bv),
        can_encode(bv, version),
        canonical(bv, version),
    ensures
        crate::parse3::spec_decode(enc_building(bv, version)) == Some(bv),
{
    let s = enc_building(bv, version);
    let nroots = bv.roots.len();
    let nblocks = bv.blocks.len();
    let a: Seq<u8> = seq![version];
    let b: Seq<u8> = if version >= 6 {
        enc_catalogs(bv)
    } else {
        Seq::empty()
    };
    let c = enc_u16(nroots as u16);
    let d = enc_roots(bv, version, nroots as int);
    let e = enc_u16(nblocks as u16);
    let f = crate::wire::enc_blocks(bv, version, nblocks as int);
    assert(s.subrange(0, s.len() as int) =~= s);
    lemma_split(s, 0, a + b + c + d + e, f);
    lemma_split(s, 0, a + b + c + d, e);
    lemma_split(s, 0, a + b + c, d);
    lemma_split(s, 0, a + b, c);
    lemma_split(s, 0, a, b);
    assert(s.subrange(0, 1)[0] == s[0]);
    let i1: int = 1 + b.len() as int;
    let i2: int = i1 + c.len();
    let i3: int = i2 + d.len();
    let i4: int = i3 + e.len();
    let cats: (bool, Seq<u16>, bool, Seq<(u16, u16, u16)>) = if version >= 6 {
        (
            color_lookup(bv),
            ctx_of(bv, version).ccat,
            rotation_lookup(bv),
            ctx_of(bv, version).rcat,
        )
    } else {
        (false, Seq::empty(), false, Seq::empty())
    };
    if version >= 6 {
        lemma_p_catalogs(s, 1, bv, version);
    } else {
        assert(ctx_of(bv, version).ccat =~= Seq::<u16>::empty());
        assert(ctx_of(bv, version).rcat =~= Seq::<(u16, u16, u16)>::empty());
    }
    lemma_p_u16(s, i1, nroots as u16);
    lemma_p_roots_enc(s, i2, bv, version, nroots as int);
    assert(bv.roots.take(nroots as int) =~= bv.roots);
    lemma_p_u16(s, i3, nblocks as u16);
    lemma_p_blocks_enc(s, i4, bv, version, nblocks as int);
    assert(bv.blocks.take(nblocks as int) =~= bv.blocks);
    lemma_body_assemble(s, i1, i2, i3, i4, bv, version, cats);
    assert(crate::parse3::p_building(s) == Some((s.len() as int, bv)));
}

} // verus!
