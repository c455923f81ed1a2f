//! The decoder: reads a stream back into a building, strictly — it accepts
//! exactly the streams the parse functions accept, and returns exactly the
//! building they denote.
use vstd::prelude::*;
use crate::model::{Block, Building, Gradient, Metadata, PackedVectors, Root, TypeSettings};
use crate::parse::{p_byte, p_dropdown_bytes, p_i32, p_i32s, p_quads, p_quad_u32, p_toggle_bytes,
    p_triple_i16, p_triple_u16, p_triple_u32, p_triples_u16, p_triples_u32, p_u16s, p_u32s};
use crate::parse2::{p_counted_quads, p_counted_u32s, p_field_group, p_field_group_1,
    p_field_groups, p_gradient, p_gradient_1, p_gradient_2, p_gradient_3, p_gradients, p_meta_0,
    p_meta_1, p_meta_2, p_meta_3, p_metadata, p_opt_vectors, p_packed_body, p_packed_data,
    p_packed_toggles, p_settings_arrays, p_settings_slots, p_tail_1, p_tail_2, p_tail_arrays,
    p_toggles, p_type_settings, p_vector_body, p_vectors_and_fields, p_vf_compact, p_vf_custom,
    p_vf_groups, p_vf_legacy, refs_in_range, no_vectors, empty_metadata};
use crate::primitives::{get_i16, get_u16, get_u32, get_u8, p_bools, read_string_7bit,
    unpack_bools, unpack_color};
use crate::registry::{custom_block, non_interactable, MATH_BLOCK_ID};
use crate::Error;

verus! {

// ---------------------------------------------------------------------------
// Repetition readers
// ---------------------------------------------------------------------------

fn get_u16s(s: &[u8], pos: usize, n: usize) -> (r: Option<(usize, Vec<u16>)>)
    ensures
        match r {
            Some((j, xs)) => p_u16s(s@, pos as int, n as int) == Some((j as int, xs@)),
            None => p_u16s(s@, pos as int, n as int) is None,
        },
    decreases n,
{
    if n == 0 {
        Some((pos, Vec::new()))
    } else {
        match get_u16s(s, pos, n - 1) {
            Some((j, mut xs)) => match get_u16(s, j) {
                Some((k, x)) => {
                    xs.push(x);
                    Some((k, xs))
                },
                None => None,
            },
            None => None,
        }
    }
}

fn get_u32s(s: &[u8], pos: usize, n: usize) -> (r: Option<(usize, Vec<u32>)>)
    ensures
        match r {
            Some((j, xs)) => p_u32s(s@, pos as int, n as int) == Some((j as int, xs@)),
            None => p_u32s(s@, pos as int, n as int) is None,
        },
    decreases n,
{
    if n == 0 {
        Some((pos, Vec::new()))
    } else {
        match get_u32s(s, pos, n - 1) {
            Some((j, mut xs)) => match get_u32(s, j) {
                Some((k, x)) => {
                    xs.push(x);
                    Some((k, xs))
                },
                None => None,
            },
            None => None,
        }
    }
}

fn get_i32s(s: &[u8], pos: usize, n: usize) -> (r: Option<(usize, Vec<i32>)>)
    ensures
        match r {
            Some((j, xs)) => p_i32s(s@, pos as int, n as int) == Some((j as int, xs@)),
            None => p_i32s(s@, pos as int, n as int) is None,
        },
    decreases n,
{
    if n == 0 {
        Some((pos, Vec::new()))
    } else {
        match get_i32s(s, pos, n - 1) {
            Some((j, mut xs)) => match get_u32(s, j) {
                Some((k, x)) => {
                    xs.push(x as i32);
                    Some((k, xs))
                },
                None => None,
            },
            None => None,
        }
    }
}

/// The tuple view of a word quadruple vector.
pub open spec fn quads_view(v: Seq<[u32; 4]>) -> Seq<(u32, u32, u32, u32)> {
    v.map_values(|a: [u32; 4]| crate::model::quad_u32(a))
}

fn get_quads(s: &[u8], pos: usize, n: usize) -> (r: Option<(usize, Vec<[u32; 4]>)>)
    ensures
        match r {
            Some((j, xs)) => p_quads(s@, pos as int, n as int) == Some((j as int, quads_view(xs@))),
            None => p_quads(s@, pos as int, n as int) is None,
        },
    decreases n,
{
    if n == 0 {
        proof {
            assert(quads_view(Seq::empty()) =~= Seq::<(u32, u32, u32, u32)>::empty());
        }
        Some((pos, Vec::new()))
    } else {
        match get_quads(s, pos, n - 1) {
            Some((j, mut xs)) => match get_u32(s, j) {
                Some((j1, a)) => match get_u32(s, j1) {
                    Some((j2, b)) => match get_u32(s, j2) {
                        Some((j3, c)) => match get_u32(s, j3) {
                            Some((j4, d)) => {
                                let ghost before = xs@;
                                xs.push([a, b, c, d]);
                                proof {
                                    assert(quads_view(xs@) =~= quads_view(before).push(
                                        (a, b, c, d),
                                    ));
                                }
                                Some((j4, xs))
                            },
                            None => None,
                        },
                        None => None,
                    },
                    None => None,
                },
                None => None,
            },
            None => None,
        }
    }
}

/// The tuple view of a word triple vector.
pub open spec fn triples32_view(v: Seq<[u32; 3]>) -> Seq<(u32, u32, u32)> {
    v.map_values(|a: [u32; 3]| crate::model::triple_u32(a))
}

pub open spec fn triples16_view(v: Seq<[u16; 3]>) -> Seq<(u16, u16, u16)> {
    v.map_values(|a: [u16; 3]| crate::model::triple_u16(a))
}

fn get_triples_u32(s: &[u8], pos: usize, n: usize) -> (r: Option<(usize, Vec<[u32; 3]>)>)
    ensures
        match r {
            Some((j, xs)) => p_triples_u32(s@, pos as int, n as int) == Some(
                (j as int, triples32_view(xs@)),
            ),
            None => p_triples_u32(s@, pos as int, n as int) is None,
        },
    decreases n,
{
    if n == 0 {
        proof {
            assert(triples32_view(Seq::empty()) =~= Seq::<(u32, u32, u32)>::empty());
        }
        Some((pos, Vec::new()))
    } else {
        match get_triples_u32(s, pos, n - 1) {
            Some((j, mut xs)) => match get_u32(s, j) {
                Some((j1, a)) => match get_u32(s, j1) {
                    Some((j2, b)) => match get_u32(s, j2) {
                        Some((j3, c)) => {
                            let ghost before = xs@;
                            xs.push([a, b, c]);
                            proof {
                                assert(triples32_view(xs@) =~= triples32_view(before).push(
                                    (a, b, c),
                                ));
                            }
                            Some((j3, xs))
                        },
                        None => None,
                    },
                    None => None,
                },
                None => None,
            },
            None => None,
        }
    }
}

fn get_triples_u16(s: &[u8], pos: usize, n: usize) -> (r: Option<(usize, Vec<[u16; 3]>)>)
    ensures
        match r {
            Some((j, xs)) => p_triples_u16(s@, pos as int, n as int) == Some(
                (j as int, triples16_view(xs@)),
            ),
            None => p_triples_u16(s@, pos as int, n as int) is None,
        },
    decreases n,
{
    if n == 0 {
        proof {
            assert(triples16_view(Seq::empty()) =~= Seq::<(u16, u16, u16)>::empty());
        }
        Some((pos, Vec::new()))
    } else {
        match get_triples_u16(s, pos, n - 1) {
            Some((j, mut xs)) => match get_u16(s, j) {
                Some((j1, a)) => match get_u16(s, j1) {
                    Some((j2, b)) => match get_u16(s, j2) {
                        Some((j3, c)) => {
                            let ghost before = xs@;
                            xs.push([a, b, c]);
                            proof {
                                assert(triples16_view(xs@) =~= triples16_view(before).push(
                                    (a, b, c),
                                ));
                            }
                            Some((j3, xs))
                        },
                        None => None,
                    },
                    None => None,
                },
                None => None,
            },
            None => None,
        }
    }
}

fn get_toggle_bytes(s: &[u8], pos: usize, n: usize) -> (r: Option<(usize, Vec<bool>)>)
    ensures
        match r {
            Some((j, xs)) => p_toggle_bytes(s@, pos as int, n as int) == Some((j as int, xs@)),
            None => p_toggle_bytes(s@, pos as int, n as int) is None,
        },
    decreases n,
{
    if n == 0 {
        Some((pos, Vec::new()))
    } else {
        match get_toggle_bytes(s, pos, n - 1) {
            Some((j, mut xs)) => match get_u8(s, j) {
                Some((k, x)) => {
                    if x <= 1 {
                        xs.push(x == 1);
                        Some((k, xs))
                    } else {
                        None
                    }
                },
                None => None,
            },
            None => None,
        }
    }
}

fn get_dropdown_bytes(s: &[u8], pos: usize, n: usize) -> (r: Option<(usize, Vec<i32>)>)
    ensures
        match r {
            Some((j, xs)) => p_dropdown_bytes(s@, pos as int, n as int) == Some((j as int, xs@)),
            None => p_dropdown_bytes(s@, pos as int, n as int) is None,
        },
    decreases n,
{
    if n == 0 {
        Some((pos, Vec::new()))
    } else {
        match get_dropdown_bytes(s, pos, n - 1) {
            Some((j, mut xs)) => match get_u8(s, j) {
                Some((k, x)) => {
                    xs.push(x as i32);
                    Some((k, xs))
                },
                None => None,
            },
            None => None,
        }
    }
}

// ---------------------------------------------------------------------------
// Record readers
// ---------------------------------------------------------------------------

/// Decides whether a parsed reference list is strict: every target in
/// range and none repeated.
fn check_refs(xs: &Vec<u16>, nblocks: usize) -> (r: bool)
    ensures
        r == refs_in_range(xs@, nblocks as int),
{
    let mut i: usize = 0;
    while i < xs.len()
        invariant
            i <= xs@.len(),
            forall|k: int| 0 <= k < i ==> (#[trigger] xs@[k] as int) < nblocks,
            forall|a: int, b: int| 0 <= a < b < i ==> xs@[a] != xs@[b],
        decreases xs@.len() - i,
    {
        if !((xs[i] as usize) < nblocks) {
            proof {
                assert(!refs_in_range(xs@, nblocks as int));
            }
            return false;
        }
        let mut k: usize = 0;
        while k < i
            invariant
                k <= i,
                i < xs@.len(),
                forall|a: int| 0 <= a < k ==> xs@[a] != xs@[i as int],
            decreases i - k,
        {
            if xs[k] == xs[i] {
                proof {
                    assert(!refs_in_range(xs@, nblocks as int));
                }
                return false;
            }
            k = k + 1;
        }
        i = i + 1;
    }
    true
}

/// Compares two byte slices for equality.
fn eq_bytes(a: &[u8], b: &[u8]) -> (r: bool)
    ensures
        r == (a@ == b@),
{
    if a.len() != b.len() {
        proof {
            assert(a@.len() != b@.len());
        }
        return false;
    }
    let mut i: usize = 0;
    while i < a.len()
        invariant
            a@.len() == b@.len(),
            i <= a@.len(),
            forall|k: int| 0 <= k < i ==> a@[k] == b@[k],
        decreases a@.len() - i,
    {
        if a[i] != b[i] {
            return false;
        }
        i = i + 1;
    }
    proof {
        assert(a@ =~= b@);
    }
    true
}

fn get_counted_u32s(s: &[u8], pos: usize) -> (r: Option<(usize, Vec<u32>)>)
    ensures
        match r {
            Some((j, xs)) => p_counted_u32s(s@, pos as int) == Some((j as int, xs@)),
            None => p_counted_u32s(s@, pos as int) is None,
        },
{
    match get_u16(s, pos) {
        Some((j, n)) => get_u32s(s, j, n as usize),
        None => None,
    }
}

/// Reads one gradient record.
fn get_gradient(s: &[u8], pos: usize) -> (r: Option<(usize, Gradient)>)
    ensures
        match r {
            Some((j, g)) => p_gradient(s@, pos as int) == Some((j as int, g@)),
            None => p_gradient(s@, pos as int) is None,
        },
{
    let cks = match get_u16(s, pos) {
        Some((i1, n)) => match get_quads(s, i1, n as usize) {
            Some(v) => v,
            None => {
                return None;
            },
        },
        None => {
            return None;
        },
    };
    let cts = match get_counted_u32s(s, cks.0) {
        Some(v) => v,
        None => {
            return None;
        },
    };
    let aks = match get_counted_u32s(s, cts.0) {
        Some(v) => v,
        None => {
            return None;
        },
    };
    let ats = match get_counted_u32s(s, aks.0) {
        Some(v) => v,
        None => {
            return None;
        },
    };
    let g = Gradient {
        color_keys: cks.1,
        color_time_keys: cts.1,
        alpha_keys: aks.1,
        alpha_time_keys: ats.1,
    };
    proof {
        assert(g@.color_keys =~= quads_view(g.color_keys@));
        assert(p_gradient(s@, pos as int) matches Some((j, gv)) && j == ats.0 && gv =~= g@);
    }
    Some((ats.0, g))
}

fn get_gradients(s: &[u8], pos: usize, n: usize) -> (r: Option<(usize, Vec<Gradient>)>)
    ensures
        match r {
            Some((j, xs)) => p_gradients(s@, pos as int, n as int) == Some(
                (j as int, xs@.map_values(|g: Gradient| g@)),
            ),
            None => p_gradients(s@, pos as int, n as int) is None,
        },
    decreases n,
{
    if n == 0 {
        proof {
            assert(Seq::<Gradient>::empty().map_values(|g: Gradient| g@) =~= Seq::<
                crate::model::GradientV,
            >::empty());
        }
        Some((pos, Vec::new()))
    } else {
        match get_gradients(s, pos, n - 1) {
            Some((j, mut xs)) => match get_gradient(s, j) {
                Some((k, g)) => {
                    let ghost before = xs@;
                    xs.push(g);
                    proof {
                        assert(xs@.map_values(|g: Gradient| g@) =~= before.map_values(
                            |g: Gradient| g@,
                        ).push(g@));
                    }
                    Some((k, xs))
                },
                None => None,
            },
            None => None,
        }
    }
}

/// Reads one weak reference group, requiring every member to exist.
fn get_field_group(s: &[u8], pos: usize, version: u8, nblocks: usize) -> (r: Option<
    (usize, Vec<u16>),
>)
    ensures
        match r {
            Some((j, xs)) => p_field_group(s@, pos as int, version, nblocks as int) == Some(
                (j as int, xs@),
            ),
            None => p_field_group(s@, pos as int, version, nblocks as int) is None,
        },
{
    let head: Option<(usize, usize)> = if version <= 4 {
        match get_u16(s, pos) {
            Some((j, n)) => Some((j, n as usize)),
            None => None,
        }
    } else {
        match get_u8(s, pos) {
            Some((j, n)) => Some((j, n as usize)),
            None => None,
        }
    };
    match head {
        Some((j, n)) => match get_u16s(s, j, n) {
            Some((k, xs)) => {
                if check_refs(&xs, nblocks) {
                    Some((k, xs))
                } else {
                    None
                }
            },
            None => None,
        },
        None => None,
    }
}

fn get_field_groups(s: &[u8], pos: usize, version: u8, nblocks: usize, n: usize) -> (r: Option<
    (usize, Vec<Vec<u16>>),
>)
    ensures
        match r {
            Some((j, xs)) => p_field_groups(s@, pos as int, version, nblocks as int, n as int)
                == Some((j as int, xs@.map_values(|g: Vec<u16>| g@))),
            None => p_field_groups(s@, pos as int, version, nblocks as int, n as int) is None,
        },
    decreases n,
{
    if n == 0 {
        proof {
            assert(Seq::<Vec<u16>>::empty().map_values(|g: Vec<u16>| g@) =~= Seq::<
                Seq<u16>,
            >::empty());
        }
        Some((pos, Vec::new()))
    } else {
        match get_field_groups(s, pos, version, nblocks, n - 1) {
            Some((j, mut xs)) => match get_field_group(s, j, version, nblocks) {
                Some((k, g)) => {
                    let ghost before = xs@;
                    xs.push(g);
                    proof {
                        assert(xs@.map_values(|g: Vec<u16>| g@) =~= before.map_values(
                            |g: Vec<u16>| g@,
                        ).push(g@));
                    }
                    Some((k, xs))
                },
                None => None,
            },
            None => None,
        }
    }
}

/// Reads the toggles of one metadata record.
fn get_toggles(s: &[u8], pos: usize, version: u8) -> (r: Option<(usize, Vec<bool>)>)
    ensures
        match r {
            Some((j, xs)) => p_toggles(s@, pos as int, version) == Some((j as int, xs@)),
            None => p_toggles(s@, pos as int, version) is None,
        },
{
    if version <= 4 {
        match get_u16(s, pos) {
            Some((j, n)) => get_toggle_bytes(s, j, n as usize),
            None => None,
        }
    } else {
        match get_u8(s, pos) {
            Some((j, n)) => {
                let nb = (n as usize + 7) / 8;
                if nb <= s.len() && j <= s.len() - nb {
                    let body = vstd::slice::slice_subrange(s, j, j + nb);
                    let ts = unpack_bools(body, n as usize);
                    let packed = crate::primitives::pack_bools(&ts);
                    if eq_bytes(packed.as_slice(), body) {
                        Some((j + nb, ts))
                    } else {
                        None
                    }
                } else {
                    None
                }
            },
            None => None,
        }
    }
}

/// Reads a nonempty vector body.
fn get_vector_body(s: &[u8], pos: usize, n: usize, packed: bool) -> (r: Option<
    (usize, (Vec<[u32; 3]>, PackedVectors)),
>)
    ensures
        match r {
            Some((j, (vecs, pv))) => p_vector_body(s@, pos as int, n as int, packed) == Some(
                (j as int, (triples32_view(vecs@), pv@)),
            ),
            None => p_vector_body(s@, pos as int, n as int, packed) is None,
        },
{
    if packed {
        match get_u8(s, pos) {
            Some((j, lo)) => match get_u8(s, j) {
                Some((k, hi)) => match get_triples_u16(s, k, n) {
                    Some((l, data)) => {
                        let pv = PackedVectors { lo: lo as i8, hi: hi as i8, data };
                        proof {
                            assert(pv@.data =~= triples16_view(pv.data@));
                            assert(triples32_view(Seq::<[u32; 3]>::empty()) =~= Seq::<
                                (u32, u32, u32),
                            >::empty());
                        }
                        Some((l, (Vec::new(), pv)))
                    },
                    None => None,
                },
                None => None,
            },
            None => None,
        }
    } else {
        match get_triples_u32(s, pos, n) {
            Some((j, vecs)) => {
                let pv = PackedVectors { lo: 0, hi: 0, data: Vec::new() };
                proof {
                    assert(pv@ =~= no_vectors().1);
                }
                Some((j, (vecs, pv)))
            },
            None => None,
        }
    }
}

/// Reads the vector header, the vector data, and the reference groups.
#[verifier::rlimit(100)]
fn get_vectors_and_fields(s: &[u8], pos: usize, version: u8, id: u8, nblocks: usize) -> (r:
    Option<(usize, (Vec<Vec<u16>>, Vec<[u32; 3]>, PackedVectors))>)
    ensures
        match r {
            Some((j, (fs, vs, pv))) => p_vectors_and_fields(
                s@,
                pos as int,
                version,
                id,
                nblocks as int,
            ) == Some(
                (
                    j as int,
                    (fs@.map_values(|g: Vec<u16>| g@), triples32_view(vs@), pv@),
                ),
            ),
            None => p_vectors_and_fields(s@, pos as int, version, id, nblocks as int) is None,
        },
{
    let custom = custom_block(id);
    let packed = version >= 1 && custom;
    proof {
        assert(Seq::<Vec<u16>>::empty().map_values(|g: Vec<u16>| g@) =~= Seq::<Seq<u16>>::empty());
        assert(triples32_view(Seq::<[u32; 3]>::empty()) =~= no_vectors().0);
    }
    let ghost nopv = crate::model::PackedVectorsV { lo: 0i8, hi: 0i8, data: Seq::empty() };
    proof {
        assert(nopv =~= no_vectors().1);
    }
    if version <= 4 {
        match get_u16(s, pos) {
            Some((j, h)) => {
                let vecs: (usize, (Vec<[u32; 3]>, PackedVectors)) = if h >= 0x8000 {
                    match get_u16(s, j) {
                        Some((j2, vn)) => {
                            if vn > 0 {
                                match get_vector_body(s, j2, vn as usize, packed) {
                                    Some(v) => v,
                                    None => {
                                        return None;
                                    },
                                }
                            } else {
                                return None;
                            }
                        },
                        None => {
                            return None;
                        },
                    }
                } else {
                    (j, (Vec::new(), PackedVectors { lo: 0, hi: 0, data: Vec::new() }))
                };
                match get_field_groups(s, vecs.0, version, nblocks, (h as usize) % 0x8000) {
                    Some((j4, groups)) => Some((j4, (groups, vecs.1.0, vecs.1.1))),
                    None => None,
                }
            },
            None => None,
        }
    } else if custom {
        match get_u8(s, pos) {
            Some((j, vn)) => {
                if vn > 0 {
                    match get_vector_body(s, j, vn as usize, packed) {
                        Some((j2, vecs)) => Some((j2, (Vec::new(), vecs.0, vecs.1))),
                        None => None,
                    }
                } else {
                    Some(
                        (
                            j,
                            (
                                Vec::new(),
                                Vec::new(),
                                PackedVectors { lo: 0, hi: 0, data: Vec::new() },
                            ),
                        ),
                    )
                }
            },
            None => None,
        }
    } else {
        match get_u8(s, pos) {
            Some((j, h)) => {
                let vecs: (usize, (Vec<[u32; 3]>, PackedVectors)) = if h >= 0x80 {
                    match get_u8(s, j) {
                        Some((j2, vn)) => {
                            if vn > 0 {
                                match get_vector_body(s, j2, vn as usize, packed) {
                                    Some(v) => v,
                                    None => {
                                        return None;
                                    },
                                }
                            } else {
                                return None;
                            }
                        },
                        None => {
                            return None;
                        },
                    }
                } else {
                    (j, (Vec::new(), PackedVectors { lo: 0, hi: 0, data: Vec::new() }))
                };
                match get_field_groups(s, vecs.0, version, nblocks, (h as usize) % 0x80) {
                    Some((j4, groups)) => Some((j4, (groups, vecs.1.0, vecs.1.1))),
                    None => None,
                }
            },
            None => None,
        }
    }
}

/// Reads the dropdowns, color fields and gradients of one metadata record.
#[verifier::rlimit(100)]
fn get_tail_arrays(s: &[u8], pos: usize, version: u8) -> (r: Option<
    (usize, (Vec<i32>, Vec<[u32; 4]>, Vec<Gradient>)),
>)
    ensures
        match r {
            Some((j, (dds, cs, gs))) => p_tail_arrays(s@, pos as int, version) == Some(
                (
                    j as int,
                    (dds@, quads_view(cs@), gs@.map_values(|g: Gradient| g@)),
                ),
            ),
            None => p_tail_arrays(s@, pos as int, version) is None,
        },
{
    proof {
        assert(quads_view(Seq::<[u32; 4]>::empty()) =~= Seq::<(u32, u32, u32, u32)>::empty());
        assert(Seq::<Gradient>::empty().map_values(|g: Gradient| g@) =~= Seq::<
            crate::model::GradientV,
        >::empty());
    }
    if version <= 4 {
        let dds = match get_u16(s, pos) {
            Some((i1, dn)) => match get_i32s(s, i1, dn as usize) {
                Some(v) => v,
                None => {
                    return None;
                },
            },
            None => {
                return None;
            },
        };
        let cs = match get_u16(s, dds.0) {
            Some((i3, cn)) => match get_quads(s, i3, cn as usize) {
                Some(v) => v,
                None => {
                    return None;
                },
            },
            None => {
                return None;
            },
        };
        match get_u16(s, cs.0) {
            Some((i5, gn)) => match get_gradients(s, i5, gn as usize) {
                Some((i6, gs)) => Some((i6, (dds.1, cs.1, gs))),
                None => None,
            },
            None => None,
        }
    } else {
        match get_u8(s, pos) {
            Some((i1, h)) => {
                let dds = match get_dropdown_bytes(s, i1, (h as usize) % 0x40) {
                    Some(v) => v,
                    None => {
                        return None;
                    },
                };
                let hasc = ((h as usize) / 0x40) % 2 == 1;
                let hasg = h >= 0x80;
                let cs: (usize, Vec<[u32; 4]>) = if hasc {
                    match get_u8(s, dds.0) {
                        Some((i3, cn)) => {
                            if cn > 0 {
                                match get_quads(s, i3, cn as usize) {
                                    Some(v) => v,
                                    None => {
                                        return None;
                                    },
                                }
                            } else {
                                return None;
                            }
                        },
                        None => {
                            return None;
                        },
                    }
                } else {
                    (dds.0, Vec::new())
                };
                let gs: (usize, Vec<Gradient>) = if hasg {
                    match get_u8(s, cs.0) {
                        Some((i5, gn)) => {
                            if gn > 0 {
                                match get_gradients(s, i5, gn as usize) {
                                    Some(v) => v,
                                    None => {
                                        return None;
                                    },
                                }
                            } else {
                                return None;
                            }
                        },
                        None => {
                            return None;
                        },
                    }
                } else {
                    (cs.0, Vec::new())
                };
                Some((gs.0, (dds.1, cs.1, gs.1)))
            },
            None => None,
        }
    }
}

/// Reads the math-block settings where the type asks for them.
fn get_type_settings(s: &[u8], pos: usize, id: u8) -> (r: Option<(usize, TypeSettings)>)
    ensures
        match r {
            Some((j, ts)) => p_type_settings(s@, pos as int, id) == Some((j as int, ts@)),
            None => p_type_settings(s@, pos as int, id) is None,
        },
{
    if id != MATH_BLOCK_ID {
        return Some((pos, TypeSettings::Empty));
    }
    let (i1, fl) = match get_u16(s, pos) {
        Some(v) => v,
        None => {
            return None;
        },
    };
    let fl_us = fl as usize;
    if !(fl_us <= s.len() && i1 <= s.len() - fl_us) {
        return None;
    }
    let fbytes = vstd::slice::slice_to_vec(vstd::slice::slice_subrange(s, i1, i1 + fl_us));
    let function = match crate::primitives::string_from_utf8(fbytes) {
        Some(f) => f,
        None => {
            return None;
        },
    };
    proof {
        vstd::utf8::encode_utf8_decode_utf8(function@);
    }
    let i2 = i1 + fl_us;
    let (i3, ol) = match get_u8(s, i2) {
        Some(v) => v,
        None => {
            return None;
        },
    };
    let ol_us = ol as usize;
    if !(ol_us <= s.len() && i3 <= s.len() - ol_us) {
        return None;
    }
    let order = vstd::slice::slice_to_vec(vstd::slice::slice_subrange(s, i3, i3 + ol_us));
    let i4 = i3 + ol_us;
    let (i5, sl) = match get_u8(s, i4) {
        Some(v) => v,
        None => {
            return None;
        },
    };
    let sl_us = sl as usize;
    if !(sl_us <= s.len() && i5 <= s.len() - sl_us) {
        return None;
    }
    let slots = vstd::slice::slice_to_vec(vstd::slice::slice_subrange(s, i5, i5 + sl_us));
    let i6 = i5 + sl_us;
    if fl == 0 && ol == 0 && sl == 0 {
        Some((i6, TypeSettings::Empty))
    } else {
        Some(
            (
                i6,
                TypeSettings::MathBlock { function, incoming_connections_order: order, slots },
            ),
        )
    }
}

/// Reads one metadata record.
pub fn get_metadata(s: &[u8], pos: usize, version: u8, id: u8, nblocks: usize) -> (r: Option<
    (usize, Metadata),
>)
    ensures
        match r {
            Some((j, m)) => p_metadata(s@, pos as int, version, id, nblocks as int) == Some(
                (j as int, m@),
            ),
            None => p_metadata(s@, pos as int, version, id, nblocks as int) is None,
        },
{
    let toggles = match get_toggles(s, pos, version) {
        Some(v) => v,
        None => {
            return None;
        },
    };
    let values = match get_counted_u32s(s, toggles.0) {
        Some(v) => v,
        None => {
            return None;
        },
    };
    let vf = match get_vectors_and_fields(s, values.0, version, id, nblocks) {
        Some(v) => v,
        None => {
            return None;
        },
    };
    let tail = match get_tail_arrays(s, vf.0, version) {
        Some(v) => v,
        None => {
            return None;
        },
    };
    let ts = match get_type_settings(s, tail.0, id) {
        Some(v) => v,
        None => {
            return None;
        },
    };
    let m = Metadata {
        toggles: toggles.1,
        values: values.1,
        fields: vf.1.0,
        dropdowns: tail.1.0,
        colors: tail.1.1,
        gradients: tail.1.2,
        vectors: vf.1.1,
        vectors_packed: vf.1.2,
        type_settings: ts.1,
    };
    proof {
        assert(p_metadata(s@, pos as int, version, id, nblocks as int) matches Some((j, mv)) && j
            == ts.0 && mv =~= m@);
    }
    Some((ts.0, m))
}

} // verus!

// ---------------------------------------------------------------------------
// Blocks
// ---------------------------------------------------------------------------

use crate::parse3::{blocks_grouped, empty_block, ends_of_lasts, ends_ok, end_of_last, p_blk_color,
    p_blk_color_v0, p_blk_conn_list, p_blk_conns, p_blk_enable, p_blk_esc, p_blk_flags, p_blk_id,
    p_blk_load, p_blk_meta, p_blk_name, p_blk_root, p_blk_rot, p_block, p_blocks, p_body,
    p_body_blocks, p_body_counted, p_body_roots, p_building, p_catalog_colors, p_catalog_rots,
    p_catalogs, p_root, p_root_bounds, p_root_tail, p_roots, root_of, spec_decode, PCtx};
use crate::model::{BlockV, RootV};

verus! {

/// The fields of a block record up through the live enable value.
struct BlockHead {
    pos32: [u32; 3],
    pos16: [i16; 3],
    rot: [u16; 3],
    id: u8,
    root: u16,
    fb: u8,
    esc: u8,
    od: bool,
}

/// The parse accumulator those fields denote.
spec fn head_acc(hd: BlockHead, version: u8) -> BlockV {
    BlockV {
        position: if version == 0 {
            crate::model::triple_u32(hd.pos32)
        } else {
            (0, 0, 0)
        },
        position_in_bounds: if version == 0 {
            (0, 0, 0)
        } else {
            crate::model::triple_i16(hd.pos16)
        },
        rotation: crate::model::triple_u16(hd.rot),
        id: hd.id,
        root: hd.root,
        enable_state_current: hd.esc,
        overdriven: hd.od,
        ..empty_block()
    }
}

/// Reads a block record's head: position, rotation, type, owning root
/// where the layout stores it, the flag byte with its consistency checks,
/// and the live enable value where owed.
#[verifier::rlimit(100)]
fn get_block_head(
    s: &[u8],
    pos: usize,
    version: u8,
    rcat: &Vec<[u16; 3]>,
    rlook: bool,
    assigned: u16,
    Ghost(ctx): Ghost<PCtx>,
) -> (r: Option<(usize, BlockHead)>)
    requires
        ctx.version == version,
        ctx.rcat == triples16_view(rcat@),
        ctx.rlook == rlook,
    ensures
        match r {
            Some((j, hd)) => p_block(s@, pos as int, ctx, assigned) == p_blk_name(
                s@,
                j as int,
                ctx,
                hd.fb,
                head_acc(hd, version),
            ) && (version == 0 ==> crate::model::triple_i16(hd.pos16) == (0i16, 0i16, 0i16)) && (
            version != 0 ==> crate::model::triple_u32(hd.pos32) == (0u32, 0u32, 0u32)),
            None => p_block(s@, pos as int, ctx, assigned) is None,
        },
{
    let mut pos32: [u32; 3] = [0, 0, 0];
    let mut pos16: [i16; 3] = [0, 0, 0];
    let cur: usize;
    if version == 0 {
        let (j1, a) = match get_u32(s, pos) {
            Some(v) => v,
            None => {
                proof { reveal(p_block); }
                return None;
            },
        };
        let (j2, b) = match get_u32(s, j1) {
            Some(v) => v,
            None => {
                proof { reveal(p_block); }
                return None;
            },
        };
        let (j3, c) = match get_u32(s, j2) {
            Some(v) => v,
            None => {
                proof { reveal(p_block); }
                return None;
            },
        };
        pos32 = [a, b, c];
        cur = j3;
    } else {
        let (j1, a) = match get_i16(s, pos) {
            Some(v) => v,
            None => {
                proof { reveal(p_block); }
                return None;
            },
        };
        let (j2, b) = match get_i16(s, j1) {
            Some(v) => v,
            None => {
                proof { reveal(p_block); }
                return None;
            },
        };
        let (j3, c) = match get_i16(s, j2) {
            Some(v) => v,
            None => {
                proof { reveal(p_block); }
                return None;
            },
        };
        pos16 = [a, b, c];
        cur = j3;
    }
    let ghost g1 = if version == 0 {
        BlockV { position: crate::model::triple_u32(pos32), ..empty_block() }
    } else {
        BlockV { position_in_bounds: crate::model::triple_i16(pos16), ..empty_block() }
    };
    assert(p_block(s@, pos as int, ctx, assigned) == p_blk_rot(s@, cur as int, ctx, assigned, g1))
        by {
        reveal(p_block);
    }
    let rot: [u16; 3];
    let cur2: usize;
    if version >= 6 && rlook {
        if rcat.len() <= 255 {
            let (j, slot) = match get_u8(s, cur) {
                Some(v) => v,
                None => {
                    proof { reveal(p_blk_rot); }
                    return None;
                },
            };
            if !((slot as usize) < rcat.len()) {
                proof { reveal(p_blk_rot); }
                return None;
            }
            rot = rcat[slot as usize];
            cur2 = j;
            proof {
                assert(ctx.rcat[slot as int] == crate::model::triple_u16(rcat@[slot as int]));
            }
        } else {
            let (j, slot) = match get_u16(s, cur) {
                Some(v) => v,
                None => {
                    proof { reveal(p_blk_rot); }
                    return None;
                },
            };
            if !((slot as usize) < rcat.len()) {
                proof { reveal(p_blk_rot); }
                return None;
            }
            rot = rcat[slot as usize];
            cur2 = j;
            proof {
                assert(ctx.rcat[slot as int] == crate::model::triple_u16(rcat@[slot as int]));
            }
        }
    } else {
        let (j1, a) = match get_u16(s, cur) {
            Some(v) => v,
            None => {
                proof { reveal(p_blk_rot); }
                return None;
            },
        };
        let (j2, b) = match get_u16(s, j1) {
            Some(v) => v,
            None => {
                proof { reveal(p_blk_rot); }
                return None;
            },
        };
        let (j3, c) = match get_u16(s, j2) {
            Some(v) => v,
            None => {
                proof { reveal(p_blk_rot); }
                return None;
            },
        };
        rot = [a, b, c];
        cur2 = j3;
    }
    let ghost g2 = BlockV { rotation: crate::model::triple_u16(rot), ..g1 };
    assert(p_blk_rot(s@, cur as int, ctx, assigned, g1) == p_blk_id(s@, cur2 as int, ctx, assigned, g2))
        by {
        reveal(p_blk_rot);
    }
    let (cur3, id) = match get_u8(s, cur2) {
        Some(v) => v,
        None => {
            proof { reveal(p_blk_id); }
            return None;
        },
    };
    let ghost g3 = BlockV { id: id, ..g2 };
    let root: u16;
    let cur4: usize;
    if version < 2 {
        let (j, x) = match get_u16(s, cur3) {
            Some(v) => v,
            None => {
                proof {
                    reveal(p_blk_id);
                    reveal(p_blk_root);
                }
                return None;
            },
        };
        root = x;
        cur4 = j;
    } else {
        root = assigned;
        cur4 = cur3;
    }
    let ghost g4 = BlockV { root: root, ..g3 };
    assert(p_blk_id(s@, cur2 as int, ctx, assigned, g2) == p_blk_flags(s@, cur4 as int, ctx, g4))
        by {
        reveal(p_blk_id);
        reveal(p_blk_root);
    }
    let (cur5, fb) = match get_u8(s, cur4) {
        Some(v) => v,
        None => {
            proof { reveal(p_blk_flags); }
            return None;
        },
    };
    let b0 = (fb >> 0u8) & 1 == 1;
    let b1 = (fb >> 1u8) & 1 == 1;
    let b2 = (fb >> 2u8) & 1 == 1;
    let b4 = (fb >> 4u8) & 1 == 1;
    let b5 = (fb >> 5u8) & 1 == 1;
    let b6 = (fb >> 6u8) & 1 == 1;
    let b7 = (fb >> 7u8) & 1 == 1;
    let inter = version < 4 || !non_interactable(id);
    if !b5 {
        proof { reveal(p_blk_flags); }
        return None;
    }
    if version < 3 && b7 {
        proof { reveal(p_blk_flags); }
        return None;
    }
    if !inter && (b0 || b1 || !b2 || b4) {
        proof { reveal(p_blk_flags); }
        return None;
    }
    assert(p_blk_flags(s@, cur4 as int, ctx, g4) == p_blk_esc(s@, cur5 as int, ctx, fb, g4)) by {
        reveal(p_blk_flags);
    }
    let esc: u8;
    let od: bool;
    let cur6: usize;
    if inter || b7 {
        let (j, e) = match get_u8(s, cur5) {
            Some(v) => v,
            None => {
                proof { reveal(p_blk_esc); }
                return None;
            },
        };
        if version >= 3 && (b7 != (e != 0 || b6)) {
            proof { reveal(p_blk_esc); }
            return None;
        }
        esc = e;
        od = b6;
        cur6 = j;
    } else {
        if b6 {
            proof { reveal(p_blk_esc); }
            return None;
        }
        esc = 0;
        od = false;
        cur6 = cur5;
    }
    let ghost g5 = BlockV { enable_state_current: esc, overdriven: od, ..g4 };
    assert(p_blk_esc(s@, cur5 as int, ctx, fb, g4) == p_blk_name(s@, cur6 as int, ctx, fb, g5))
        by {
        reveal(p_blk_esc);
    }
    let hd = BlockHead { pos32, pos16, rot, id, root, fb, esc, od };
    proof {
        assert(head_acc(hd, version) =~= g5);
    }
    Some((cur6, hd))
}

/// The interactive fields of a block record.
struct BlockMid {
    name: Option<String>,
    ena: u8,
    load: Option<u16>,
    conns: Vec<u16>,
}

spec fn opt_name_view(n: Option<String>) -> Option<Seq<char>> {
    match n {
        Some(t) => Some(t@),
        None => None,
    }
}

/// The accumulator after the interactive field group.
spec fn mid_acc(acc: BlockV, md: BlockMid) -> BlockV {
    BlockV {
        name: opt_name_view(md.name),
        enable_state: md.ena,
        load: md.load,
        connections: md.conns@,
        ..acc
    }
}

/// Reads the interactive field group: name, authored enable value,
/// surviving load link and surviving connections.
#[verifier::rlimit(100)]
fn get_block_mid(
    s: &[u8],
    pos: usize,
    version: u8,
    nblocks: usize,
    fb: u8,
    id: u8,
    Ghost(ctx): Ghost<PCtx>,
    Ghost(acc): Ghost<BlockV>,
) -> (r: Option<(usize, BlockMid)>)
    requires
        ctx.version == version,
        ctx.nblocks == nblocks,
        acc.id == id,
        acc.name is None,
        acc.enable_state == 0,
        acc.load is None,
        acc.connections == Seq::<u16>::empty(),
    ensures
        match r {
            Some((j, md)) => p_blk_name(s@, pos as int, ctx, fb, acc) == p_blk_meta(
                s@,
                j as int,
                ctx,
                fb,
                mid_acc(acc, md),
            ),
            None => p_blk_name(s@, pos as int, ctx, fb, acc) is None,
        },
{
    let b0 = (fb >> 0u8) & 1 == 1;
    let b1 = (fb >> 1u8) & 1 == 1;
    let b4 = (fb >> 4u8) & 1 == 1;
    let inter = version < 4 || !non_interactable(id);
    let name: Option<String>;
    let cur7: usize;
    if b0 && inter {
        if pos > s.len() {
            proof {
                reveal(p_blk_name);
                assert(crate::primitives::p_string(s@, pos as int) is None) by {
                    assert(crate::primitives::p_varint_rec(s@, pos as int, 0, 0) is None);
                }
            }
            return None;
        }
        let (j, n) = match read_string_7bit(s, pos) {
            Some(v) => v,
            None => {
                proof { reveal(p_blk_name); }
                return None;
            },
        };
        name = Some(n);
        cur7 = j;
    } else {
        name = None;
        cur7 = pos;
    }
    let ghost g6 = BlockV { name: opt_name_view(name), ..acc };
    assert(p_blk_name(s@, pos as int, ctx, fb, acc) == p_blk_enable(s@, cur7 as int, ctx, fb, g6))
        by {
        reveal(p_blk_name);
    }
    let ena: u8;
    let cur8: usize;
    if inter {
        let (j, e) = match get_u8(s, cur7) {
            Some(v) => v,
            None => {
                proof { reveal(p_blk_enable); }
                return None;
            },
        };
        ena = e;
        cur8 = j;
    } else {
        ena = 0;
        cur8 = cur7;
    }
    let ghost g7 = BlockV { enable_state: ena, ..g6 };
    assert(p_blk_enable(s@, cur7 as int, ctx, fb, g6) == p_blk_load(s@, cur8 as int, ctx, fb, g7))
        by {
        reveal(p_blk_enable);
    }
    let load: Option<u16>;
    let cur9: usize;
    if b4 && inter {
        let (j, l) = match get_u16(s, cur8) {
            Some(v) => v,
            None => {
                proof { reveal(p_blk_load); }
                return None;
            },
        };
        if !((l as usize) < nblocks) {
            proof { reveal(p_blk_load); }
            return None;
        }
        load = Some(l);
        cur9 = j;
    } else {
        load = None;
        cur9 = cur8;
    }
    let ghost g8 = BlockV { load: load, ..g7 };
    assert(p_blk_load(s@, cur8 as int, ctx, fb, g7) == p_blk_conns(s@, cur9 as int, ctx, fb, g8))
        by {
        reveal(p_blk_load);
    }
    let conns: Vec<u16>;
    let cur10: usize;
    if b1 && inter {
        let head: Option<(usize, usize)> = if version < 4 {
            match get_u16(s, cur9) {
                Some((j, n)) => Some((j, n as usize)),
                None => None,
            }
        } else {
            match get_u8(s, cur9) {
                Some((j, n)) => Some((j, n as usize)),
                None => None,
            }
        };
        let (j, n) = match head {
            Some(v) => v,
            None => {
                proof { reveal(p_blk_conns); }
                return None;
            },
        };
        if n == 0 {
            proof { reveal(p_blk_conns); }
            return None;
        }
        let (k, xs) = match get_u16s(s, j, n) {
            Some(v) => v,
            None => {
                proof {
                    reveal(p_blk_conns);
                    reveal(p_blk_conn_list);
                }
                return None;
            },
        };
        if !check_refs(&xs, nblocks) {
            proof {
                reveal(p_blk_conns);
                reveal(p_blk_conn_list);
            }
            return None;
        }
        conns = xs;
        cur10 = k;
    } else {
        conns = Vec::new();
        cur10 = cur9;
    }
    let ghost g9 = BlockV { connections: conns@, ..g8 };
    assert(p_blk_conns(s@, cur9 as int, ctx, fb, g8) == p_blk_meta(s@, cur10 as int, ctx, fb, g9))
        by {
        reveal(p_blk_conns);
        reveal(p_blk_conn_list);
    }
    let md = BlockMid { name, ena, load, conns };
    proof {
        assert(mid_acc(acc, md) =~= g9);
    }
    Some((cur10, md))
}

spec fn opt_meta_view(m: Option<Metadata>) -> Option<crate::model::MetadataV> {
    match m {
        Some(mm) => Some(mm@),
        None => None,
    }
}

spec fn opt_color_view(c: Option<[u8; 3]>) -> Option<(u8, u8, u8)> {
    match c {
        Some(cc) => Some((cc[0], cc[1], cc[2])),
        None => None,
    }
}

/// Reads the metadata and color parts of a block record.
#[verifier::rlimit(100)]
fn get_block_tail(
    s: &[u8],
    pos: usize,
    version: u8,
    nblocks: usize,
    ccat: &Vec<u16>,
    clook: bool,
    fb: u8,
    id: u8,
    Ghost(ctx): Ghost<PCtx>,
    Ghost(acc): Ghost<BlockV>,
) -> (r: Option<(usize, Option<Metadata>, Option<[u8; 3]>)>)
    requires
        ctx.version == version,
        ctx.nblocks == nblocks,
        ctx.ccat == ccat@,
        ctx.clook == clook,
        acc.id == id,
        acc.metadata is None,
        acc.color is None,
    ensures
        match r {
            Some((j, meta, color)) => p_blk_meta(s@, pos as int, ctx, fb, acc) == Some(
                (
                    j as int,
                    BlockV { metadata: opt_meta_view(meta), color: opt_color_view(color), ..acc },
                ),
            ),
            None => p_blk_meta(s@, pos as int, ctx, fb, acc) is None,
        },
{
    let b2 = (fb >> 2u8) & 1 == 1;
    let b3 = (fb >> 3u8) & 1 == 1;
    let inter = version < 4 || !non_interactable(id);
    let metadata: Option<Metadata>;
    let cur11: usize;
    if !b2 && inter {
        let (j, m) = match get_metadata(s, pos, version, id, nblocks) {
            Some(v) => v,
            None => {
                proof { reveal(p_blk_meta); }
                return None;
            },
        };
        metadata = Some(m);
        cur11 = j;
    } else {
        metadata = None;
        cur11 = pos;
    }
    let ghost g10 = BlockV { metadata: opt_meta_view(metadata), ..acc };
    assert(p_blk_meta(s@, pos as int, ctx, fb, acc) == p_blk_color(s@, cur11 as int, ctx, fb, g10))
        by {
        reveal(p_blk_meta);
    }
    let color: Option<[u8; 3]>;
    let cur12: usize;
    if !b3 {
        if version == 0 {
            let (j1, c0) = match get_u8(s, cur11) {
                Some(v) => v,
                None => {
                    proof { reveal(p_blk_color); }
                    return None;
                },
            };
            let (j2, c1) = match get_u8(s, j1) {
                Some(v) => v,
                None => {
                    proof { reveal(p_blk_color); }
                    return None;
                },
            };
            let (j3, c2) = match get_u8(s, j2) {
                Some(v) => v,
                None => {
                    proof { reveal(p_blk_color); }
                    return None;
                },
            };
            let (j4, pad) = match get_u8(s, j3) {
                Some(v) => v,
                None => {
                    proof { reveal(p_blk_color); }
                    return None;
                },
            };
            if pad != 0xFF {
                proof { reveal(p_blk_color); }
                return None;
            }
            color = Some([c0, c1, c2]);
            cur12 = j4;
        } else if version >= 6 && clook {
            let (j, slot) = match get_u8(s, cur11) {
                Some(v) => v,
                None => {
                    proof { reveal(p_blk_color); }
                    return None;
                },
            };
            if !((slot as usize) < ccat.len()) {
                proof { reveal(p_blk_color); }
                return None;
            }
            color = Some(unpack_color(ccat[slot as usize]));
            cur12 = j;
        } else {
            let (j, w) = match get_u16(s, cur11) {
                Some(v) => v,
                None => {
                    proof { reveal(p_blk_color); }
                    return None;
                },
            };
            color = Some(unpack_color(w));
            cur12 = j;
        }
    } else {
        color = None;
        cur12 = cur11;
    }
    proof {
        reveal(p_blk_color);
        assert(p_blk_color(s@, cur11 as int, ctx, fb, g10) matches Some((j, bv)) && j == cur12
            && bv =~= (BlockV {
            metadata: opt_meta_view(metadata),
            color: opt_color_view(color),
            ..acc
        }));
    }
    Some((cur12, metadata, color))
}

/// Reads one block record; the owning root of later layouts is assigned
/// by the caller from the partition boundaries.
fn get_block(
    s: &[u8],
    pos: usize,
    version: u8,
    nblocks: usize,
    rcat: &Vec<[u16; 3]>,
    rlook: bool,
    ccat: &Vec<u16>,
    clook: bool,
    assigned: u16,
    Ghost(ctx): Ghost<PCtx>,
) -> (r: Option<(usize, Block)>)
    requires
        ctx.version == version,
        ctx.nblocks == nblocks,
        ctx.rcat == triples16_view(rcat@),
        ctx.rlook == rlook,
        ctx.ccat == ccat@,
        ctx.clook == clook,
    ensures
        match r {
            Some((j, b)) => p_block(s@, pos as int, ctx, assigned) == Some((j as int, b@)),
            None => p_block(s@, pos as int, ctx, assigned) is None,
        },
{
    let (cur6, hd) = match get_block_head(s, pos, version, rcat, rlook, assigned, Ghost(ctx)) {
        Some(v) => v,
        None => {
            return None;
        },
    };
    let ghost acc0 = head_acc(hd, version);
    let (cur10, md) = match get_block_mid(
        s,
        cur6,
        version,
        nblocks,
        hd.fb,
        hd.id,
        Ghost(ctx),
        Ghost(acc0),
    ) {
        Some(v) => v,
        None => {
            return None;
        },
    };
    let ghost acc1 = mid_acc(acc0, md);
    let (cur12, metadata, color) = match get_block_tail(
        s,
        cur10,
        version,
        nblocks,
        ccat,
        clook,
        hd.fb,
        hd.id,
        Ghost(ctx),
        Ghost(acc1),
    ) {
        Some(v) => v,
        None => {
            return None;
        },
    };
    let block = Block {
        position: hd.pos32,
        position_in_bounds: hd.pos16,
        rotation: hd.rot,
        id: hd.id,
        root: hd.root,
        name: md.name,
        enable_state: md.ena,
        enable_state_current: hd.esc,
        overdriven: hd.od,
        connections: md.conns,
        load: md.load,
        color,
        metadata,
    };
    proof {
        assert(block@ =~= (BlockV {
            metadata: opt_meta_view(block.metadata),
            color: opt_color_view(block.color),
            ..acc1
        }));
    }
    Some((cur12, block))
}

} // verus!

// ---------------------------------------------------------------------------
// Roots and the stream
// ---------------------------------------------------------------------------

verus! {

/// Reads one root record and the stored partition boundary.
fn get_root(s: &[u8], pos: usize, version: u8) -> (r: Option<(usize, Root, u16)>)
    ensures
        match r {
            Some((j, root, last)) => p_root(s@, pos as int, version) == Some(
                (j as int, (root@, last)),
            ),
            None => p_root(s@, pos as int, version) is None,
        },
{
    let (j1, pa) = match get_u32(s, pos) {
        Some(v) => v,
        None => { return None; },
    };
    let (j2, pb) = match get_u32(s, j1) {
        Some(v) => v,
        None => { return None; },
    };
    let (j3, pc) = match get_u32(s, j2) {
        Some(v) => v,
        None => { return None; },
    };
    let (j4, ra) = match get_u32(s, j3) {
        Some(v) => v,
        None => { return None; },
    };
    let (j5, rb) = match get_u32(s, j4) {
        Some(v) => v,
        None => { return None; },
    };
    let (j6, rc) = match get_u32(s, j5) {
        Some(v) => v,
        None => { return None; },
    };
    let mut center: [u32; 3] = [0, 0, 0];
    let mut size: [u32; 3] = [0, 0, 0];
    let mut cur = j6;
    if version >= 1 {
        let (k1, ca) = match get_u32(s, cur) {
            Some(v) => v,
            None => { return None; },
        };
        let (k2, cb) = match get_u32(s, k1) {
            Some(v) => v,
            None => { return None; },
        };
        let (k3, cc) = match get_u32(s, k2) {
            Some(v) => v,
            None => { return None; },
        };
        let (k4, za) = match get_u32(s, k3) {
            Some(v) => v,
            None => { return None; },
        };
        let (k5, zb) = match get_u32(s, k4) {
            Some(v) => v,
            None => { return None; },
        };
        let (k6, zc) = match get_u32(s, k5) {
            Some(v) => v,
            None => { return None; },
        };
        center = [ca, cb, cc];
        size = [za, zb, zc];
        cur = k6;
    }
    let mut last: u16 = 0;
    if version >= 2 {
        let (k, l) = match get_u16(s, cur) {
            Some(v) => v,
            None => { return None; },
        };
        last = l;
        cur = k;
    }
    let root = Root {
        position: [pa, pb, pc],
        rotation: [ra, rb, rc],
        bounds_center: center,
        bounds_size: size,
    };
    proof {
        assert(p_root(s@, pos as int, version) matches Some((j, rl)) && j == cur && rl.0 =~= root@
            && rl.1 == last);
    }
    Some((cur, root, last))
}

/// A failed prefix fails the whole root list.
proof fn lemma_p_roots_fail(s: Seq<u8>, i: int, version: u8, k: int, n: int)
    requires
        0 <= k <= n,
        p_roots(s, i, version, k) is None,
    ensures
        p_roots(s, i, version, n) is None,
    decreases n - k,
{
    if k < n {
        lemma_p_roots_fail(s, i, version, k, n - 1);
    }
}

/// A failed prefix fails the whole block list.
proof fn lemma_p_blocks_fail(s: Seq<u8>, i: int, ctx: PCtx, ends: Seq<int>, k: int, n: int)
    requires
        0 <= k <= n,
        p_blocks(s, i, ctx, ends, k) is None,
    ensures
        p_blocks(s, i, ctx, ends, n) is None,
    decreases n - k,
{
    if k < n {
        lemma_p_blocks_fail(s, i, ctx, ends, k, n - 1);
    }
}

/// The owner of a block index is the first root whose boundary lies past
/// it.
proof fn lemma_root_of_at(ends: Seq<int>, idx: int, r: int)
    requires
        0 <= r < ends.len(),
        idx < ends[r],
        forall|q: int| 0 <= q < r ==> #[trigger] ends[q] <= idx,
    ensures
        root_of(ends, idx) == r,
    decreases r,
{
    if r > 0 {
        assert(ends[0] <= idx);
        let tail = ends.drop_first();
        assert(tail[r - 1] == ends[r]);
        assert forall|q: int| 0 <= q < r - 1 implies #[trigger] tail[q] <= idx by {
            assert(tail[q] == ends[q + 1]);
        }
        lemma_root_of_at(tail, idx, r - 1);
    }
}

/// Reads the catalog section.
fn get_catalogs(s: &[u8], pos: usize) -> (r: Option<
    (usize, bool, Vec<u16>, bool, Vec<[u16; 3]>),
>)
    ensures
        match r {
            Some((j, clook, ccat, rlook, rcat)) => p_catalogs(s@, pos as int) == Some(
                (j as int, (clook, ccat@, rlook, triples16_view(rcat@))),
            ),
            None => p_catalogs(s@, pos as int) is None,
        },
{
    let (j, ch) = match get_u8(s, pos) {
        Some(v) => v,
        None => { return None; },
    };
    let (mut cur, rh) = match get_u16(s, j) {
        Some(v) => v,
        None => { return None; },
    };
    let mut ccat: Vec<u16> = Vec::new();
    let mut clook = false;
    if ch != 0xFF {
        if ch == 0 {
            return None;
        }
        clook = true;
        let (j2, cs) = match get_u16s(s, cur, ch as usize) {
            Some(v) => v,
            None => { return None; },
        };
        ccat = cs;
        cur = j2;
    }
    let mut rcat: Vec<[u16; 3]> = Vec::new();
    let mut rlook = false;
    if rh != 0xFFFF {
        if rh == 0 {
            return None;
        }
        rlook = true;
        let (j3, rs) = match get_triples_u16(s, cur, rh as usize) {
            Some(v) => v,
            None => { return None; },
        };
        rcat = rs;
        cur = j3;
    }
    proof {
        if !rlook {
            assert(triples16_view(rcat@) =~= Seq::<(u16, u16, u16)>::empty());
        }
        if !clook {
            assert(ccat@ =~= Seq::<u16>::empty());
        }
    }
    Some((cur, clook, ccat, rlook, rcat))
}

/// Reads the root records.
fn get_roots(s: &[u8], pos: usize, version: u8, n: u16) -> (r: Option<
    (usize, Vec<Root>, Vec<u16>),
>)
    ensures
        match r {
            Some((j, roots, lasts)) => p_roots(s@, pos as int, version, n as int) == Some(
                (j as int, (roots@.map_values(|t: Root| t@), lasts@)),
            ),
            None => p_roots(s@, pos as int, version, n as int) is None,
        },
{
    let mut roots: Vec<Root> = Vec::new();
    let mut lasts: Vec<u16> = Vec::new();
    let mut cur = pos;
    let mut ri: usize = 0;
    proof {
        assert(Seq::<Root>::empty().map_values(|t: Root| t@) =~= Seq::<RootV>::empty());
    }
    while ri < n as usize
        invariant
            ri <= n as usize,
            p_roots(s@, pos as int, version, ri as int) == Some(
                (cur as int, (roots@.map_values(|t: Root| t@), lasts@)),
            ),
        decreases n as usize - ri,
    {
        let (k, root, last) = match get_root(s, cur, version) {
            Some(v) => v,
            None => {
                proof {
                    lemma_p_roots_fail(s@, pos as int, version, ri + 1, n as int);
                }
                return None;
            },
        };
        let ghost before = roots@;
        roots.push(root);
        lasts.push(last);
        proof {
            assert(roots@.map_values(|t: Root| t@) =~= before.map_values(|t: Root| t@).push(
                root@,
            ));
        }
        cur = k;
        ri = ri + 1;
    }
    Some((cur, roots, lasts))
}

/// Converts the stored boundaries and checks that they partition the block
/// range: non-decreasing, within range, closing exactly at the block count.
fn build_ends(lasts: &Vec<u16>, nblocks: usize) -> (r: Option<Vec<usize>>)
    requires
        nblocks <= 0xFFFF,
    ensures
        match r {
            Some(ends) => ends_ok(ends_of_lasts(lasts@), nblocks as int) && ends@.len()
                == lasts@.len() && forall|q: int|
                0 <= q < ends@.len() ==> (#[trigger] ends@[q] as int) == ends_of_lasts(lasts@)[q],
            None => !ends_ok(ends_of_lasts(lasts@), nblocks as int),
        },
{
    let ghost spec_ends = ends_of_lasts(lasts@);
    let mut ends: Vec<usize> = Vec::new();
    let mut prev: usize = 0;
    let mut ei: usize = 0;
    while ei < lasts.len()
        invariant
            nblocks <= 0xFFFF,
            ei <= lasts@.len(),
            ends@.len() == ei,
            spec_ends == ends_of_lasts(lasts@),
            spec_ends.len() == lasts@.len(),
            forall|q: int| 0 <= q < ei ==> (#[trigger] ends@[q] as int) == spec_ends[q],
            forall|q: int| 0 <= q < ei ==> #[trigger] ends@[q] <= nblocks,
            forall|q: int, w: int| 0 <= q <= w < ei ==> #[trigger] ends@[q] <= #[trigger] ends@[w],
            ei > 0 ==> prev == ends@[ei - 1],
            ei == 0 ==> prev == 0,
        decreases lasts@.len() - ei,
    {
        let l = lasts[ei];
        let e: usize = if l == 0xFFFF {
            0
        } else {
            l as usize + 1
        };
        proof {
            assert(spec_ends[ei as int] == end_of_last(lasts@[ei as int]));
        }
        if e > nblocks {
            proof {
                assert(spec_ends[ei as int] > nblocks);
            }
            return None;
        }
        if ei > 0 && e < prev {
            proof {
                assert(spec_ends[ei - 1] > spec_ends[ei as int]);
            }
            return None;
        }
        prev = e;
        ends.push(e);
        ei = ei + 1;
    }
    if ends.len() == 0 {
        if nblocks != 0 {
            return None;
        }
    } else {
        if !(ends[ends.len() - 1] == nblocks) {
            proof {
                assert(spec_ends[spec_ends.len() - 1] != nblocks);
            }
            return None;
        }
    }
    proof {
        assert forall|q: int| 0 <= q < spec_ends.len() implies 0 <= #[trigger] spec_ends[q]
            <= nblocks by {
            assert((ends@[q] as int) == spec_ends[q]);
        }
        assert forall|q: int, w: int| 0 <= q <= w < spec_ends.len() implies #[trigger] spec_ends[q]
            <= #[trigger] spec_ends[w] by {
            assert((ends@[q] as int) == spec_ends[q]);
            assert((ends@[w] as int) == spec_ends[w]);
            assert(ends@[q] <= ends@[w]);
        }
        if spec_ends.len() > 0 {
            assert((ends@[ends@.len() - 1] as int) == spec_ends[spec_ends.len() - 1]);
        }
        assert(ends_ok(spec_ends, nblocks as int));
    }
    Some(ends)
}

/// Reads the block records, assigning each to its root from the partition
/// boundaries where the layout stores no per-block root index.
#[verifier::rlimit(100)]
fn get_blocks(
    s: &[u8],
    pos: usize,
    version: u8,
    nblocks: usize,
    rcat: &Vec<[u16; 3]>,
    rlook: bool,
    ccat: &Vec<u16>,
    clook: bool,
    ends: &Vec<usize>,
    Ghost(ends_int): Ghost<Seq<int>>,
    Ghost(ctx): Ghost<PCtx>,
) -> (r: Option<(usize, Vec<Block>)>)
    requires
        ctx.version == version,
        ctx.nblocks == nblocks,
        ctx.rcat == triples16_view(rcat@),
        ctx.rlook == rlook,
        ctx.ccat == ccat@,
        ctx.clook == clook,
        nblocks <= 0xFFFF,
        ctx.version >= 2 ==> {
            &&& ends_ok(ends_int, nblocks as int)
            &&& ends_int.len() == ends@.len()
            &&& ends@.len() <= 0xFFFF
            &&& forall|q: int|
                0 <= q < ends@.len() ==> (#[trigger] ends@[q] as int) == ends_int[q]
        },
        ctx.version < 2 ==> ends_int == Seq::<int>::empty(),
    ensures
        match r {
            Some((j, blocks)) => p_blocks(s@, pos as int, ctx, ends_int, nblocks as int) == Some(
                (j as int, blocks@.map_values(|b: Block| b@)),
            ),
            None => p_blocks(s@, pos as int, ctx, ends_int, nblocks as int) is None,
        },
{
    let mut blocks: Vec<Block> = Vec::new();
    let mut cur = pos;
    let mut bi: usize = 0;
    let mut cur_root: usize = 0;
    proof {
        assert(Seq::<Block>::empty().map_values(|b: Block| b@) =~= Seq::<BlockV>::empty());
    }
    while bi < nblocks
        invariant
            ctx.version == version,
            ctx.nblocks == nblocks,
            ctx.rcat == triples16_view(rcat@),
            ctx.rlook == rlook,
            ctx.ccat == ccat@,
            ctx.clook == clook,
            nblocks <= 0xFFFF,
            ctx.version >= 2 ==> {
                &&& ends_ok(ends_int, nblocks as int)
                &&& ends_int.len() == ends@.len()
                &&& ends@.len() <= 0xFFFF
                &&& forall|q: int|
                    0 <= q < ends@.len() ==> (#[trigger] ends@[q] as int) == ends_int[q]
            },
            ctx.version < 2 ==> ends_int == Seq::<int>::empty(),
            bi <= nblocks,
            cur_root <= ends@.len(),
            forall|q: int| 0 <= q < cur_root ==> #[trigger] ends_int[q] <= bi,
            p_blocks(s@, pos as int, ctx, ends_int, bi as int) == Some(
                (cur as int, blocks@.map_values(|b: Block| b@)),
            ),
        decreases nblocks - bi,
    {
        let assigned: u16;
        if version >= 2 {
            while cur_root < ends.len() && bi >= ends[cur_root]
                invariant
                    cur_root <= ends@.len(),
                    forall|q: int| 0 <= q < cur_root ==> #[trigger] ends@[q] <= bi,
                    ctx.version >= 2 ==> forall|q: int|
                        0 <= q < ends@.len() ==> (#[trigger] ends@[q] as int) == ends_int[q],
                    ctx.version >= 2,
                decreases ends@.len() - cur_root,
            {
                cur_root = cur_root + 1;
            }
            proof {
                assert forall|q: int| 0 <= q < cur_root implies #[trigger] ends_int[q] <= bi by {
                    assert(ends@[q] <= bi);
                }
                if cur_root >= ends@.len() {
                    // the boundaries close at the block count, so an owner
                    // always exists for an index inside the range
                    assert(ends_int.len() > 0);
                    assert(ends_int[ends_int.len() - 1] == nblocks);
                    assert(ends_int[ends_int.len() - 1] <= bi);
                    assert(false);
                }
                assert(bi < ends@[cur_root as int]);
                lemma_root_of_at(ends_int, bi as int, cur_root as int);
            }
            assigned = cur_root as u16;
        } else {
            assigned = 0;
        }
        let (k, block) = match get_block(
            s,
            cur,
            version,
            nblocks,
            rcat,
            rlook,
            ccat,
            clook,
            assigned,
            Ghost(ctx),
        ) {
            Some(v) => v,
            None => {
                proof {
                    lemma_p_blocks_fail(s@, pos as int, ctx, ends_int, bi + 1, nblocks as int);
                }
                return None;
            },
        };
        let ghost before = blocks@;
        blocks.push(block);
        proof {
            assert(blocks@.map_values(|b: Block| b@) =~= before.map_values(|b: Block| b@).push(
                block@,
            ));
        }
        cur = k;
        bi = bi + 1;
    }
    Some((cur, blocks))
}

/// Decides whether decoded blocks are grouped contiguously by owning
/// root, in root order, naming only roots that exist.
fn check_grouping(blocks: &Vec<Block>, nroots: u16) -> (r: bool)
    ensures
        r == blocks_grouped(blocks@.map_values(|t: Block| t@), nroots as int),
{
    let ghost bv = blocks@.map_values(|t: Block| t@);
    let mut gi: usize = 0;
    let mut prev_root: u16 = 0;
    while gi < blocks.len()
        invariant
            bv == blocks@.map_values(|t: Block| t@),
            gi <= blocks@.len(),
            forall|k: int| 0 <= k < gi ==> (#[trigger] bv[k].root as int) < nroots as int,
            forall|k: int, l: int| 0 <= k <= l < gi ==> #[trigger] bv[k].root <= #[trigger] bv[l].root,
            gi > 0 ==> prev_root == bv[gi - 1].root,
        decreases blocks@.len() - gi,
    {
        let b = &blocks[gi];
        proof {
            assert(bv[gi as int] == blocks@[gi as int]@);
        }
        if !((b.root as usize) < nroots as usize) {
            proof {
                assert(!((bv[gi as int].root as int) < nroots as int));
            }
            return false;
        }
        if gi > 0 && b.root < prev_root {
            proof {
                assert(bv[gi - 1].root > bv[gi as int].root);
            }
            return false;
        }
        prev_root = b.root;
        gi = gi + 1;
    }
    true
}

/// Decodes a building from a byte stream.
///
/// The version byte is read first; one outside the supported set is a hard
/// failure before any of the body is touched.  The decoder is strict — it
/// accepts exactly the streams the parse functions accept: any truncation,
/// count that does not fit the stream, reference to a missing or repeated
/// block, flag claiming data that is not there, invalid text, or trailing
/// garbage fails with invalid data.  On success the result is exactly the
/// building the stream denotes, its blocks grouped contiguously by owning
/// root.
#[verifier::rlimit(100)]
pub fn read_building(s: &[u8]) -> (r: Result<Building, Error>)
    ensures
        match r {
            Ok(b) => spec_decode(s@) == Some(b@),
            Err(_) => spec_decode(s@) is None,
        },
        match r {
            Ok(_) => true,
            Err(e) => match e {
                Error::UnsupportedVersion { version } => s@.len() > 0 && s@[0] == version
                    && version > crate::MAX_VERSION,
                Error::InvalidData => !(s@.len() > 0 && s@[0] > crate::MAX_VERSION),
                Error::TooManyValues => false,
            },
        },
        (s@.len() > 0 && s@[0] > crate::MAX_VERSION) ==> r == Err::<Building, Error>(
            Error::UnsupportedVersion { version: s@[0] },
        ),
{
    let (i0, version) = match get_u8(s, 0) {
        Some(v) => v,
        None => {
            return Err(Error::InvalidData);
        },
    };
    if version > crate::MAX_VERSION {
        return Err(Error::UnsupportedVersion { version });
    }
    // catalogs
    let mut cur: usize = i0;
    let mut ccat: Vec<u16> = Vec::new();
    let mut rcat: Vec<[u16; 3]> = Vec::new();
    let mut clook = false;
    let mut rlook = false;
    if version >= 6 {
        let (j, cl, cc, rl, rc) = match get_catalogs(s, cur) {
            Some(v) => v,
            None => {
                return Err(Error::InvalidData);
            },
        };
        cur = j;
        clook = cl;
        ccat = cc;
        rlook = rl;
        rcat = rc;
    }
    let ghost cats = (clook, ccat@, rlook, triples16_view(rcat@));
    proof {
        if version < 6 {
            assert(ccat@ =~= Seq::<u16>::empty());
            assert(triples16_view(rcat@) =~= Seq::<(u16, u16, u16)>::empty());
        }
        assert(p_building(s@) == p_body(s@, cur as int, version, cats));
    }
    // roots
    let (j1, nroots) = match get_u16(s, cur) {
        Some(v) => v,
        None => {
            return Err(Error::InvalidData);
        },
    };
    cur = j1;
    let (j2, roots, lasts) = match get_roots(s, cur, version, nroots) {
        Some(v) => v,
        None => {
            return Err(Error::InvalidData);
        },
    };
    cur = j2;
    // block count and the partition it must fit
    let (j3, nblocks) = match get_u16(s, cur) {
        Some(v) => v,
        None => {
            return Err(Error::InvalidData);
        },
    };
    cur = j3;
    let nblocks_us = nblocks as usize;
    let ghost ctx = PCtx {
        version,
        nroots: nroots as int,
        nblocks: nblocks as int,
        rcat: triples16_view(rcat@),
        rlook,
        ccat: ccat@,
        clook,
    };
    let mut ends: Vec<usize> = Vec::new();
    let ghost ends_int: Seq<int> = if version >= 2 {
        ends_of_lasts(lasts@)
    } else {
        Seq::empty()
    };
    if version >= 2 {
        ends = match build_ends(&lasts, nblocks_us) {
            Some(v) => v,
            None => {
                return Err(Error::InvalidData);
            },
        };
        proof {
            assert(ends@.len() == lasts@.len());
            assert(lasts@.len() == nroots as int) by {
                lemma_p_roots_len(s@, j1 as int, version, nroots as int);
            }
        }
    }
    // blocks
    let (j4, blocks) = match get_blocks(
        s,
        cur,
        version,
        nblocks_us,
        &rcat,
        rlook,
        &ccat,
        clook,
        &ends,
        Ghost(ends_int),
        Ghost(ctx),
    ) {
        Some(v) => v,
        None => {
            return Err(Error::InvalidData);
        },
    };
    cur = j4;
    // the early layouts carry the owning root per block: the grouping must
    // already be contiguous by root and name only roots that exist
    if version < 2 {
        if !check_grouping(&blocks, nroots) {
            return Err(Error::InvalidData);
        }
    }
    if cur != s.len() {
        return Err(Error::InvalidData);
    }
    let b = Building { roots, blocks };
    proof {
        assert(p_building(s@) matches Some((j, bv)) && j == s@.len() && bv =~= b@);
    }
    Ok(b)
}

/// A parsed root list has one record per count.
proof fn lemma_p_roots_len(s: Seq<u8>, i: int, version: u8, n: int)
    ensures
        p_roots(s, i, version, n) matches Some((j, rl)) ==> rl.0.len() == (if n >= 0 {
            n
        } else {
            0
        }) && rl.1.len() == (if n >= 0 {
            n
        } else {
            0
        }),
    decreases n,
{
    if n > 0 {
        lemma_p_roots_len(s, i, version, n - 1);
    }
}

} // verus!
