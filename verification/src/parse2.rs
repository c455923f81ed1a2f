//! Record-level parsers: each wire record read back in small staged steps,
//! every stage the exact mirror of one piece of the encoding.
use vstd::prelude::*;
use crate::model::{GradientV, PackedVectorsV, TypeSettingsV};
use crate::parse::{p_byte, p_dropdown_bytes, p_i32s, p_quads, p_toggle_bytes, p_triples_u16,
    p_triples_u32, p_u16s, p_u32s};
use crate::primitives::{enc_bools, p_bools, p_u16};
use crate::registry::{spec_custom_block, MATH_BLOCK_ID};

verus! {

// ---------------------------------------------------------------------------
// Gradients
// ---------------------------------------------------------------------------

pub open spec fn p_counted_quads(s: Seq<u8>, i: int) -> Option<
    (int, Seq<(u32, u32, u32, u32)>),
> {
    match p_u16(s, i) {
        Some((j, n)) => p_quads(s, j, n as int),
        None => None,
    }
}

pub open spec fn p_counted_u32s(s: Seq<u8>, i: int) -> Option<(int, Seq<u32>)> {
    match p_u16(s, i) {
        Some((j, n)) => p_u32s(s, j, n as int),
        None => None,
    }
}

pub open spec fn p_gradient_3(s: Seq<u8>, i: int, cks: Seq<(u32, u32, u32, u32)>, cts: Seq<u32>, aks: Seq<
    u32,
>) -> Option<(int, GradientV)> {
    match p_counted_u32s(s, i) {
        Some((j, ats)) => Some(
            (
                j,
                GradientV {
                    color_keys: cks,
                    color_time_keys: cts,
                    alpha_keys: aks,
                    alpha_time_keys: ats,
                },
            ),
        ),
        None => None,
    }
}

pub open spec fn p_gradient_2(s: Seq<u8>, i: int, cks: Seq<(u32, u32, u32, u32)>, cts: Seq<u32>) -> Option<
    (int, GradientV),
> {
    match p_counted_u32s(s, i) {
        Some((j, aks)) => p_gradient_3(s, j, cks, cts, aks),
        None => None,
    }
}

pub open spec fn p_gradient_1(s: Seq<u8>, i: int, cks: Seq<(u32, u32, u32, u32)>) -> Option<
    (int, GradientV),
> {
    match p_counted_u32s(s, i) {
        Some((j, cts)) => p_gradient_2(s, j, cks, cts),
        None => None,
    }
}

pub open spec fn p_gradient(s: Seq<u8>, i: int) -> Option<(int, GradientV)> {
    match p_counted_quads(s, i) {
        Some((j, cks)) => p_gradient_1(s, j, cks),
        None => None,
    }
}

pub open spec fn p_gradients(s: Seq<u8>, i: int, n: int) -> Option<(int, Seq<GradientV>)>
    decreases n,
{
    if n <= 0 {
        Some((i, Seq::empty()))
    } else {
        match p_gradients(s, i, n - 1) {
            Some((j, xs)) => match p_gradient(s, j) {
                Some((k, x)) => Some((k, xs.push(x))),
                None => None,
            },
            None => None,
        }
    }
}

// ---------------------------------------------------------------------------
// Weak reference groups
// ---------------------------------------------------------------------------

/// Every reference a strict stream carries must name a block that exists,
/// and no target may repeat: the encoder emits each surviving target once.
pub open spec fn refs_in_range(xs: Seq<u16>, nblocks: int) -> bool {
    &&& forall|k: int| 0 <= k < xs.len() ==> (#[trigger] xs[k] as int) < nblocks
    &&& forall|a: int, b: int| 0 <= a < b < xs.len() ==> xs[a] != xs[b]
}

pub open spec fn p_field_group_1(s: Seq<u8>, i: int, n: int, nblocks: int) -> Option<(int, Seq<u16>)> {
    match p_u16s(s, i, n) {
        Some((k, xs)) => if refs_in_range(xs, nblocks) {
            Some((k, xs))
        } else {
            None
        },
        None => None,
    }
}

pub open spec fn p_field_group(s: Seq<u8>, i: int, version: u8, nblocks: int) -> Option<
    (int, Seq<u16>),
> {
    if version <= 4 {
        match p_u16(s, i) {
            Some((j, n)) => p_field_group_1(s, j, n as int, nblocks),
            None => None,
        }
    } else {
        match p_byte(s, i) {
            Some((j, n)) => p_field_group_1(s, j, n as int, nblocks),
            None => None,
        }
    }
}

pub open spec fn p_field_groups(s: Seq<u8>, i: int, version: u8, nblocks: int, n: int) -> Option<
    (int, Seq<Seq<u16>>),
>
    decreases n,
{
    if n <= 0 {
        Some((i, Seq::empty()))
    } else {
        match p_field_groups(s, i, version, nblocks, n - 1) {
            Some((j, xs)) => match p_field_group(s, j, version, nblocks) {
                Some((k, x)) => Some((k, xs.push(x))),
                None => None,
            },
            None => None,
        }
    }
}

// ---------------------------------------------------------------------------
// Toggles
// ---------------------------------------------------------------------------

pub open spec fn p_packed_toggles(s: Seq<u8>, j: int, n: u8) -> Option<(int, Seq<bool>)> {
    let nb = (n + 7) as int / 8;
    if j + nb <= s.len() {
        let bytes = s.subrange(j, j + nb);
        let ts = p_bools(bytes, n as nat);
        if enc_bools(ts) == bytes {
            Some((j + nb, ts))
        } else {
            None
        }
    } else {
        None
    }
}

/// The toggles: whole bytes in the legacy layout; bit-packed, with clear
/// padding required, in the compact one.
pub open spec fn p_toggles(s: Seq<u8>, i: int, version: u8) -> Option<(int, Seq<bool>)> {
    if version <= 4 {
        match p_u16(s, i) {
            Some((j, n)) => p_toggle_bytes(s, j, n as int),
            None => None,
        }
    } else {
        match p_byte(s, i) {
            Some((j, n)) => p_packed_toggles(s, j, n),
            None => None,
        }
    }
}

// ---------------------------------------------------------------------------
// Vector data and the shared header
// ---------------------------------------------------------------------------

/// The empty vector forms.
pub open spec fn no_vectors() -> (Seq<(u32, u32, u32)>, PackedVectorsV) {
    (Seq::empty(), PackedVectorsV { lo: 0, hi: 0, data: Seq::empty() })
}

pub open spec fn p_packed_data(s: Seq<u8>, i: int, n: int, lo: u8, hi: u8) -> Option<
    (int, (Seq<(u32, u32, u32)>, PackedVectorsV)),
> {
    match p_triples_u16(s, i, n) {
        Some((k, data)) => Some(
            (k, (Seq::empty(), PackedVectorsV { lo: lo as i8, hi: hi as i8, data })),
        ),
        None => None,
    }
}

pub open spec fn p_packed_body(s: Seq<u8>, i: int, n: int) -> Option<
    (int, (Seq<(u32, u32, u32)>, PackedVectorsV)),
> {
    match p_byte(s, i) {
        Some((j, lo)) => match p_byte(s, j) {
            Some((k, hi)) => p_packed_data(s, k, n, lo, hi),
            None => None,
        },
        None => None,
    }
}

/// A nonempty vector body: raw words, or two bounds bytes and packed words.
pub open spec fn p_vector_body(s: Seq<u8>, i: int, n: int, packed: bool) -> Option<
    (int, (Seq<(u32, u32, u32)>, PackedVectorsV)),
> {
    if packed {
        p_packed_body(s, i, n)
    } else {
        match p_triples_u32(s, i, n) {
            Some((j, vecs)) => Some((j, (vecs, no_vectors().1))),
            None => None,
        }
    }
}

pub open spec fn p_opt_vectors(s: Seq<u8>, i: int, hasv: bool, counted: bool, packed: bool) -> Option<
    (int, (Seq<(u32, u32, u32)>, PackedVectorsV)),
> {
    if hasv {
        if counted {
            match p_u16(s, i) {
                Some((j, vn)) => if vn > 0 {
                    p_vector_body(s, j, vn as int, packed)
                } else {
                    None
                },
                None => None,
            }
        } else {
            match p_byte(s, i) {
                Some((j, vn)) => if vn > 0 {
                    p_vector_body(s, j, vn as int, packed)
                } else {
                    None
                },
                None => None,
            }
        }
    } else {
        Some((i, no_vectors()))
    }
}

pub open spec fn p_vf_groups(s: Seq<u8>, i: int, version: u8, nblocks: int, nfields: int, vecs: (Seq<
    (u32, u32, u32),
>, PackedVectorsV)) -> Option<(int, (Seq<Seq<u16>>, Seq<(u32, u32, u32)>, PackedVectorsV))> {
    match p_field_groups(s, i, version, nblocks, nfields) {
        Some((j, groups)) => Some((j, (groups, vecs.0, vecs.1))),
        None => None,
    }
}

pub open spec fn p_vf_legacy(s: Seq<u8>, i: int, version: u8, id: u8, nblocks: int) -> Option<
    (int, (Seq<Seq<u16>>, Seq<(u32, u32, u32)>, PackedVectorsV)),
> {
    let packed = crate::wire::vectors_packed_form(version, id);
    match p_u16(s, i) {
        Some((j, h)) => match p_opt_vectors(s, j, h >= 0x8000, true, packed) {
            Some((j2, vecs)) => p_vf_groups(s, j2, version, nblocks, (h as int) % 0x8000, vecs),
            None => None,
        },
        None => None,
    }
}

pub open spec fn p_vf_custom(s: Seq<u8>, i: int, version: u8, id: u8) -> Option<
    (int, (Seq<Seq<u16>>, Seq<(u32, u32, u32)>, PackedVectorsV)),
> {
    let packed = crate::wire::vectors_packed_form(version, id);
    match p_byte(s, i) {
        Some((j, vn)) => match (if vn > 0 {
            p_vector_body(s, j, vn as int, packed)
        } else {
            Some((j, no_vectors()))
        }) {
            Some((j2, vecs)) => Some((j2, (Seq::empty(), vecs.0, vecs.1))),
            None => None,
        },
        None => None,
    }
}

pub open spec fn p_vf_compact(s: Seq<u8>, i: int, version: u8, id: u8, nblocks: int) -> Option<
    (int, (Seq<Seq<u16>>, Seq<(u32, u32, u32)>, PackedVectorsV)),
> {
    let packed = crate::wire::vectors_packed_form(version, id);
    match p_byte(s, i) {
        Some((j, h)) => match p_opt_vectors(s, j, h >= 0x80, false, packed) {
            Some((j2, vecs)) => p_vf_groups(s, j2, version, nblocks, (h as int) % 0x80, vecs),
            None => None,
        },
        None => None,
    }
}

/// The vector flag and field-group header, the vector data, and the groups.
pub open spec fn p_vectors_and_fields(
    s: Seq<u8>,
    i: int,
    version: u8,
    id: u8,
    nblocks: int,
) -> Option<(int, (Seq<Seq<u16>>, Seq<(u32, u32, u32)>, PackedVectorsV))> {
    if version <= 4 {
        p_vf_legacy(s, i, version, id, nblocks)
    } else if spec_custom_block(id) {
        p_vf_custom(s, i, version, id)
    } else {
        p_vf_compact(s, i, version, id, nblocks)
    }
}

// ---------------------------------------------------------------------------
// Dropdowns, color fields, gradients
// ---------------------------------------------------------------------------

pub open spec fn p_tail_2(s: Seq<u8>, i: int, version: u8, dds: Seq<i32>, cs: Seq<
    (u32, u32, u32, u32),
>, hasg: bool) -> Option<(int, (Seq<i32>, Seq<(u32, u32, u32, u32)>, Seq<GradientV>))> {
    match (if version <= 4 {
        match p_u16(s, i) {
            Some((j, gn)) => p_gradients(s, j, gn as int),
            None => None,
        }
    } else if hasg {
        match p_byte(s, i) {
            Some((j, gn)) => if gn > 0 {
                p_gradients(s, j, gn as int)
            } else {
                None
            },
            None => None,
        }
    } else {
        Some((i, Seq::empty()))
    }) {
        Some((k, gs)) => Some((k, (dds, cs, gs))),
        None => None,
    }
}

pub open spec fn p_tail_1(s: Seq<u8>, i: int, version: u8, dds: Seq<i32>, hasc: bool, hasg: bool) -> Option<
    (int, (Seq<i32>, Seq<(u32, u32, u32, u32)>, Seq<GradientV>)),
> {
    match (if version <= 4 {
        p_counted_quads(s, i)
    } else if hasc {
        match p_byte(s, i) {
            Some((j, cn)) => if cn > 0 {
                p_quads(s, j, cn as int)
            } else {
                None
            },
            None => None,
        }
    } else {
        Some((i, Seq::empty()))
    }) {
        Some((k, cs)) => p_tail_2(s, k, version, dds, cs, hasg),
        None => None,
    }
}

/// The dropdowns, color fields and gradients of one metadata record.
pub open spec fn p_tail_arrays(s: Seq<u8>, i: int, version: u8) -> Option<
    (int, (Seq<i32>, Seq<(u32, u32, u32, u32)>, Seq<GradientV>)),
> {
    if version <= 4 {
        match p_u16(s, i) {
            Some((i1, dn)) => match p_i32s(s, i1, dn as int) {
                Some((i2, dds)) => p_tail_1(s, i2, version, dds, false, false),
                None => None,
            },
            None => None,
        }
    } else {
        match p_byte(s, i) {
            Some((i1, h)) => match p_dropdown_bytes(s, i1, (h as int) % 0x40) {
                Some((i2, dds)) => p_tail_1(
                    s,
                    i2,
                    version,
                    dds,
                    ((h as int) / 0x40) % 2 == 1,
                    h >= 0x80,
                ),
                None => None,
            },
            None => None,
        }
    }
}

// ---------------------------------------------------------------------------
// Math-block settings
// ---------------------------------------------------------------------------

pub open spec fn p_settings_arrays(s: Seq<u8>, i: int, function: Seq<char>, fl: u16) -> Option<
    (int, TypeSettingsV),
> {
    match p_byte(s, i) {
        Some((i3, ol)) => if i3 + ol <= s.len() {
            p_settings_slots(s, i3 + ol, function, fl, s.subrange(i3, i3 + ol), ol)
        } else {
            None
        },
        None => None,
    }
}

pub open spec fn p_settings_slots(
    s: Seq<u8>,
    i: int,
    function: Seq<char>,
    fl: u16,
    order: Seq<u8>,
    ol: u8,
) -> Option<(int, TypeSettingsV)> {
    match p_byte(s, i) {
        Some((i5, sl)) => if i5 + sl <= s.len() {
            if fl == 0 && ol == 0 && sl == 0 {
                Some((i5 + sl, TypeSettingsV::Empty))
            } else {
                Some(
                    (
                        i5 + sl,
                        TypeSettingsV::MathBlock {
                            function,
                            incoming_connections_order: order,
                            slots: s.subrange(i5, i5 + sl),
                        },
                    ),
                )
            }
        } else {
            None
        },
        None => None,
    }
}

/// The math-block settings record; an all-empty record reads back as no
/// settings.
pub open spec fn p_type_settings(s: Seq<u8>, i: int, id: u8) -> Option<(int, TypeSettingsV)> {
    if id == MATH_BLOCK_ID {
        match p_u16(s, i) {
            Some((i1, fl)) => if i1 + fl <= s.len() && vstd::utf8::valid_utf8(
                s.subrange(i1, i1 + fl),
            ) {
                p_settings_arrays(s, i1 + fl, vstd::utf8::decode_utf8(s.subrange(i1, i1 + fl)), fl)
            } else {
                None
            },
            None => None,
        }
    } else {
        Some((i, TypeSettingsV::Empty))
    }
}

// ---------------------------------------------------------------------------
// Metadata
// ---------------------------------------------------------------------------

pub open spec fn p_meta_3(
    s: Seq<u8>,
    i: int,
    version: u8,
    id: u8,
    m: crate::model::MetadataV,
) -> Option<(int, crate::model::MetadataV)> {
    match p_type_settings(s, i, id) {
        Some((j, ts)) => Some((j, crate::model::MetadataV { type_settings: ts, ..m })),
        None => None,
    }
}

pub open spec fn p_meta_2(
    s: Seq<u8>,
    i: int,
    version: u8,
    id: u8,
    m: crate::model::MetadataV,
) -> Option<(int, crate::model::MetadataV)> {
    match p_tail_arrays(s, i, version) {
        Some((j, (dds, cs, gs))) => p_meta_3(
            s,
            j,
            version,
            id,
            crate::model::MetadataV { dropdowns: dds, colors: cs, gradients: gs, ..m },
        ),
        None => None,
    }
}

pub open spec fn p_meta_1(
    s: Seq<u8>,
    i: int,
    version: u8,
    id: u8,
    nblocks: int,
    m: crate::model::MetadataV,
) -> Option<(int, crate::model::MetadataV)> {
    match p_vectors_and_fields(s, i, version, id, nblocks) {
        Some((j, (fs, vs, pv))) => p_meta_2(
            s,
            j,
            version,
            id,
            crate::model::MetadataV { fields: fs, vectors: vs, vectors_packed: pv, ..m },
        ),
        None => None,
    }
}

pub open spec fn empty_metadata() -> crate::model::MetadataV {
    crate::model::MetadataV {
        toggles: Seq::empty(),
        values: Seq::empty(),
        fields: Seq::empty(),
        dropdowns: Seq::empty(),
        colors: Seq::empty(),
        gradients: Seq::empty(),
        vectors: Seq::empty(),
        vectors_packed: PackedVectorsV { lo: 0, hi: 0, data: Seq::empty() },
        type_settings: TypeSettingsV::Empty,
    }
}

pub open spec fn p_meta_0(s: Seq<u8>, i: int, version: u8, id: u8, nblocks: int, toggles: Seq<
    bool,
>) -> Option<(int, crate::model::MetadataV)> {
    match p_counted_u32s(s, i) {
        Some((j, values)) => p_meta_1(
            s,
            j,
            version,
            id,
            nblocks,
            crate::model::MetadataV { toggles, values, ..empty_metadata() },
        ),
        None => None,
    }
}

/// One metadata record.
pub open spec fn p_metadata(s: Seq<u8>, i: int, version: u8, id: u8, nblocks: int) -> Option<
    (int, crate::model::MetadataV),
> {
    match p_toggles(s, i, version) {
        Some((j, toggles)) => p_meta_0(s, j, version, id, nblocks, toggles),
        None => None,
    }
}

} // verus!
