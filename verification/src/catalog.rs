//! Catalogs: order-preserving deduplication of packed rotations and colors,
//! and the once-per-encode decision whether to store values as catalog plus
//! index or inline.
//!
//! The deduplicated list is kept in an `indexmap::IndexSet`, which preserves
//! first-insertion order; its behaviour is taken on trust through the
//! wrappers below and checked against the mathematical `distinct_seq`.
use vstd::prelude::*;
use crate::model::BuildingV;
use crate::primitives::spec_pack_color;
use indexmap::IndexSet;
use std::collections::hash_map::RandomState;

verus! {

#[verifier::external_type_specification]
#[verifier::external_body]
#[verifier::reject_recursive_types(T)]
#[verifier::reject_recursive_types(S)]
pub struct ExIndexSet<T, S>(IndexSet<T, S>);

/// The values a catalog set holds, in insertion order.
pub uninterp spec fn catalog_entries(s: IndexSet<u64, RandomState>) -> Seq<u64>;

/// Relies on `IndexSet::new`: the new set is empty.
#[verifier::external_body]
fn catalog_new() -> (r: IndexSet<u64, RandomState>)
    ensures
        catalog_entries(r) == Seq::<u64>::empty(),
{
    IndexSet::new()
}

/// Relies on `IndexSet::insert_full`: an equivalent value leaves the set
/// unchanged and yields that value's index with `false`; a new value is
/// appended and its index comes back with `true`.
#[verifier::external_body]
fn catalog_insert(s: &mut IndexSet<u64, RandomState>, v: u64) -> (r: (usize, bool))
    ensures
        catalog_entries(*old(s)).contains(v) ==> {
            &&& catalog_entries(*final(s)) == catalog_entries(*old(s))
            &&& r.1 == false
            &&& 0 <= r.0 < catalog_entries(*old(s)).len()
            &&& catalog_entries(*old(s))[r.0 as int] == v
        },
        !catalog_entries(*old(s)).contains(v) ==> {
            &&& catalog_entries(*final(s)) == catalog_entries(*old(s)).push(v)
            &&& r.1 == true
            &&& r.0 == catalog_entries(*old(s)).len()
        },
{
    s.insert_full(v)
}

/// Relies on `IndexSet::iter`: values come out in insertion order.
#[verifier::external_body]
fn catalog_to_vec(s: &IndexSet<u64, RandomState>) -> (r: Vec<u64>)
    ensures
        r@ == catalog_entries(*s),
{
    s.iter().copied().collect()
}

// ---------------------------------------------------------------------------
// The mathematical catalog: first occurrences, in order
// ---------------------------------------------------------------------------

pub open spec fn distinct_push(acc: Seq<u64>, x: u64) -> Seq<u64> {
    if acc.contains(x) {
        acc
    } else {
        acc.push(x)
    }
}

pub open spec fn distinct_aux(s: Seq<u64>, acc: Seq<u64>) -> Seq<u64>
    decreases s.len(),
{
    if s.len() == 0 {
        acc
    } else {
        distinct_aux(s.drop_first(), distinct_push(acc, s[0]))
    }
}

/// The distinct values of `s`, each at its first occurrence, in order.
pub open spec fn distinct_seq(s: Seq<u64>) -> Seq<u64> {
    distinct_aux(s, Seq::empty())
}

/// The index of `x`'s first occurrence in `cat`.
pub open spec fn slot_in(cat: Seq<u64>, x: u64) -> int
    decreases cat.len(),
{
    if cat.len() == 0 {
        0
    } else if cat[0] == x {
        0
    } else {
        1 + slot_in(cat.drop_first(), x)
    }
}

pub open spec fn no_dups(s: Seq<u64>) -> bool {
    forall|i: int, j: int| 0 <= i < j < s.len() ==> s[i] != s[j]
}

proof fn lemma_distinct_aux_props(s: Seq<u64>, acc: Seq<u64>)
    requires
        no_dups(acc),
    ensures
        no_dups(distinct_aux(s, acc)),
        forall|x: u64|
            distinct_aux(s, acc).contains(x) <==> (acc.contains(x) || #[trigger] s.contains(x)),
        acc.is_prefix_of(distinct_aux(s, acc)),
        distinct_aux(s, acc).len() <= acc.len() + s.len(),
    decreases s.len(),
{
    if s.len() == 0 {
        assert forall|x: u64| acc.contains(x) || s.contains(x) implies distinct_aux(
            s,
            acc,
        ).contains(x) by {
            if s.contains(x) {
                assert(s.len() > 0);
            }
        }
    } else {
        let acc2 = distinct_push(acc, s[0]);
        assert(no_dups(acc2)) by {
            if !acc.contains(s[0]) {
                assert forall|i: int, j: int| 0 <= i < j < acc2.len() implies acc2[i]
                    != acc2[j] by {
                    if j < acc.len() {
                    } else {
                        assert(acc2[j] == s[0]);
                        assert(acc.contains(acc2[i])) by {
                            assert(acc2[i] == acc[i]);
                        }
                    }
                }
            }
        }
        lemma_distinct_aux_props(s.drop_first(), acc2);
        assert forall|x: u64|
            distinct_aux(s, acc).contains(x) <==> (acc.contains(x)
                || #[trigger] s.contains(x)) by {
            assert(distinct_aux(s, acc) == distinct_aux(s.drop_first(), acc2));
            if s.contains(x) {
                let w = choose|w: int| 0 <= w < s.len() && s[w] == x;
                if w == 0 {
                    assert(acc2.contains(x)) by {
                        if !acc.contains(x) {
                            assert(acc2[acc.len() as int] == x);
                        } else {
                            assert(acc2.contains(x)) by {
                                if acc.contains(s[0]) {
                                } else {
                                    let v = choose|v: int| 0 <= v < acc.len() && acc[v] == x;
                                    assert(acc2[v] == x);
                                }
                            }
                        }
                    }
                } else {
                    assert(s.drop_first()[w - 1] == x);
                    assert(s.drop_first().contains(x));
                }
            }
            if acc.contains(x) {
                let v = choose|v: int| 0 <= v < acc.len() && acc[v] == x;
                assert(acc2[v] == x);
                assert(acc2.contains(x));
            }
            if distinct_aux(s, acc).contains(x) {
                if acc2.contains(x) && !acc.contains(x) {
                    assert(acc2 == acc.push(s[0]));
                    let v = choose|v: int| 0 <= v < acc2.len() && acc2[v] == x;
                    if v < acc.len() {
                        assert(acc[v] == x);
                    } else {
                        assert(x == s[0]);
                        assert(s.contains(x));
                    }
                }
                if s.drop_first().contains(x) {
                    let w = choose|w: int| 0 <= w < s.drop_first().len() && s.drop_first()[w]
                        == x;
                    assert(s[w + 1] == x);
                    assert(s.contains(x));
                }
            }
        }
        assert(acc.is_prefix_of(acc2));
        assert(acc.is_prefix_of(distinct_aux(s, acc))) by {
            assert(acc2.is_prefix_of(distinct_aux(s.drop_first(), acc2)));
        }
    }
}

/// The catalog of a value list holds each value once, keeps first-occurrence
/// order, and holds exactly the values of the list.
pub proof fn lemma_distinct_seq_props(s: Seq<u64>)
    ensures
        no_dups(distinct_seq(s)),
        forall|x: u64| distinct_seq(s).contains(x) <==> #[trigger] s.contains(x),
        distinct_seq(s).len() <= s.len(),
{
    lemma_distinct_aux_props(s, Seq::empty());
}

/// Appending one value extends the catalog by that value exactly when it is
/// new.
pub proof fn lemma_distinct_step(s: Seq<u64>, x: u64)
    ensures
        distinct_seq(s.push(x)) == distinct_push(distinct_seq(s), x),
{
    lemma_distinct_aux_push(s, x, Seq::empty());
}

proof fn lemma_distinct_aux_push(s: Seq<u64>, x: u64, acc: Seq<u64>)
    ensures
        distinct_aux(s.push(x), acc) == distinct_push(distinct_aux(s, acc), x),
    decreases s.len(),
{
    if s.len() == 0 {
        assert(s.push(x).drop_first() =~= Seq::<u64>::empty());
        assert(s.push(x)[0] == x);
        assert(distinct_aux(s.push(x), acc) == distinct_aux(
            s.push(x).drop_first(),
            distinct_push(acc, x),
        ));
        assert(distinct_aux(s.push(x), acc) == distinct_push(acc, x));
    } else {
        assert(s.push(x)[0] == s[0]);
        assert(s.push(x).drop_first() =~= s.drop_first().push(x));
        lemma_distinct_aux_push(s.drop_first(), x, distinct_push(acc, s[0]));
    }
}

/// A first-occurrence index is in range and lands on its value.
pub proof fn lemma_slot_in_props(cat: Seq<u64>, x: u64)
    requires
        cat.contains(x),
    ensures
        0 <= slot_in(cat, x) < cat.len(),
        cat[slot_in(cat, x)] == x,
    decreases cat.len(),
{
    if cat[0] == x {
    } else {
        assert(cat.drop_first().contains(x)) by {
            let w = choose|w: int| 0 <= w < cat.len() && cat[w] == x;
            assert(cat.drop_first()[w - 1] == x);
        }
        lemma_slot_in_props(cat.drop_first(), x);
    }
}

// ---------------------------------------------------------------------------
// Keys: packed rotations and colors as single catalog values
// ---------------------------------------------------------------------------

/// A packed rotation triple as one catalog value, sixteen bits per axis.
pub open spec fn rot_key_of(r: (u16, u16, u16)) -> u64 {
    (r.0 as u64) | ((r.1 as u64) << 16) | ((r.2 as u64) << 32)
}

pub open spec fn key_rot0(k: u64) -> u16 {
    (k & 0xFFFF) as u16
}

pub open spec fn key_rot1(k: u64) -> u16 {
    ((k >> 16) & 0xFFFF) as u16
}

pub open spec fn key_rot2(k: u64) -> u16 {
    ((k >> 32) & 0xFFFF) as u16
}

/// A rotation key splits back into the axes it was built from.
pub proof fn lemma_rot_key_round(r: (u16, u16, u16))
    ensures
        key_rot0(rot_key_of(r)) == r.0,
        key_rot1(rot_key_of(r)) == r.1,
        key_rot2(rot_key_of(r)) == r.2,
        rot_key_of(r) <= 0xFFFF_FFFF_FFFF,
{
    let a = r.0;
    let b = r.1;
    let c = r.2;
    let k = rot_key_of(r);
    assert((k & 0xFFFF) == a && ((k >> 16) & 0xFFFF) == b && ((k >> 32) & 0xFFFF) == c && k
        <= 0xFFFF_FFFF_FFFFu64) by (bit_vector)
        requires
            k == (a as u64) | ((b as u64) << 16) | ((c as u64) << 32),
    ;
}

/// Builds the catalog value of a packed rotation.
pub fn rot_key(r: &[u16; 3]) -> (k: u64)
    ensures
        k == rot_key_of(crate::model::triple_u16(*r)),
{
    (r[0] as u64) | ((r[1] as u64) << 16) | ((r[2] as u64) << 32)
}

/// A packed color word as a catalog value.
pub open spec fn color_word(c: (u8, u8, u8)) -> u64 {
    spec_pack_color(c.0, c.1, c.2) as u64
}

// ---------------------------------------------------------------------------
// The catalogs and thresholds of one building
// ---------------------------------------------------------------------------

/// The rotation keys of the first `n` blocks, in block order.
pub open spec fn rot_keys_upto(bv: BuildingV, n: int) -> Seq<u64>
    decreases n,
{
    if n <= 0 {
        Seq::empty()
    } else {
        rot_keys_upto(bv, n - 1).push(rot_key_of(bv.blocks[n - 1].rotation))
    }
}

/// The color words of the colored blocks among the first `n`, in block order.
pub open spec fn color_words_upto(bv: BuildingV, n: int) -> Seq<u64>
    decreases n,
{
    if n <= 0 {
        Seq::empty()
    } else {
        match bv.blocks[n - 1].color {
            Some(c) => color_words_upto(bv, n - 1).push(color_word(c)),
            None => color_words_upto(bv, n - 1),
        }
    }
}

/// How many of the first `n` blocks carry a color.
pub open spec fn colored_upto(bv: BuildingV, n: int) -> int
    decreases n,
{
    if n <= 0 {
        0
    } else {
        colored_upto(bv, n - 1) + (if bv.blocks[n - 1].color is Some {
            1int
        } else {
            0
        })
    }
}

/// The rotation catalog: every block's packed rotation, deduplicated in
/// first-occurrence order.
pub open spec fn rot_catalog(bv: BuildingV) -> Seq<u64> {
    distinct_seq(rot_keys_upto(bv, bv.blocks.len() as int))
}

/// The color catalog: the packed colors of colored blocks, deduplicated in
/// first-occurrence order.
pub open spec fn color_catalog(bv: BuildingV) -> Seq<u64> {
    distinct_seq(color_words_upto(bv, bv.blocks.len() as int))
}

pub open spec fn colored_count(bv: BuildingV) -> int {
    colored_upto(bv, bv.blocks.len() as int)
}

/// Catalog indices fit one byte when at most 255 rotations are distinct.
pub open spec fn single_byte_rotation(bv: BuildingV) -> bool {
    rot_catalog(bv).len() <= 255
}

/// Whether rotations are stored as catalog plus index: the average reuse
/// must beat six fifths (single-byte indices) or three halves (two-byte
/// indices), and the catalog must leave the two-byte sentinel free.
pub open spec fn rotation_lookup(bv: BuildingV) -> bool {
    rot_catalog(bv).len() < 0xFFFF && (if single_byte_rotation(bv) {
        5 * bv.blocks.len() > 6 * rot_catalog(bv).len()
    } else {
        2 * bv.blocks.len() > 3 * rot_catalog(bv).len()
    })
}

/// Whether colors are stored as catalog plus index: each distinct color must
/// be shared by more than two colored blocks, and the catalog must leave the
/// one-byte sentinel free.
pub open spec fn color_lookup(bv: BuildingV) -> bool {
    colored_count(bv) > 2 * color_catalog(bv).len() && color_catalog(bv).len() < 0xFF
}

/// The key list of the first `n` blocks has one key per block, in order.
pub proof fn lemma_rot_keys_index(bv: BuildingV, n: int, i: int)
    requires
        0 <= i < n,
    ensures
        rot_keys_upto(bv, n).len() == n,
        rot_keys_upto(bv, n)[i] == rot_key_of(bv.blocks[i].rotation),
    decreases n,
{
    lemma_rot_keys_len(bv, n);
    if i < n - 1 {
        lemma_rot_keys_index(bv, n - 1, i);
    }
}

pub proof fn lemma_rot_keys_len(bv: BuildingV, n: int)
    requires
        n >= 0,
    ensures
        rot_keys_upto(bv, n).len() == n,
    decreases n,
{
    if n > 0 {
        lemma_rot_keys_len(bv, n - 1);
    }
}

/// Every block's rotation key is in the rotation catalog.
pub proof fn lemma_rot_catalog_contains(bv: BuildingV, i: int)
    requires
        0 <= i < bv.blocks.len(),
    ensures
        rot_catalog(bv).contains(rot_key_of(bv.blocks[i].rotation)),
{
    let n = bv.blocks.len() as int;
    lemma_rot_keys_index(bv, n, i);
    assert(rot_keys_upto(bv, n).contains(rot_key_of(bv.blocks[i].rotation)));
    lemma_distinct_seq_props(rot_keys_upto(bv, n));
}

proof fn lemma_color_words_grow(bv: BuildingV, m: int, n: int, w: u64)
    requires
        0 <= m <= n,
        color_words_upto(bv, m).contains(w),
    ensures
        color_words_upto(bv, n).contains(w),
    decreases n - m,
{
    if m < n {
        let prev = color_words_upto(bv, n - 1);
        lemma_color_words_grow(bv, m, n - 1, w);
        match bv.blocks[n - 1].color {
            Some(c) => {
                let idx = choose|idx: int| 0 <= idx < prev.len() && prev[idx] == w;
                assert(prev.push(color_word(c))[idx] == w);
            },
            None => {},
        }
    }
}

/// Every colored block's packed color is in the color catalog.
pub proof fn lemma_color_catalog_contains(bv: BuildingV, i: int)
    requires
        0 <= i < bv.blocks.len(),
        bv.blocks[i].color is Some,
    ensures
        color_catalog(bv).contains(color_word(bv.blocks[i].color->Some_0)),
{
    let n = bv.blocks.len() as int;
    let w = color_word(bv.blocks[i].color->Some_0);
    assert(color_words_upto(bv, i + 1).contains(w)) by {
        let prev = color_words_upto(bv, i as int);
        assert(color_words_upto(bv, i + 1) == prev.push(w));
        assert(prev.push(w)[prev.len() as int] == w);
    }
    lemma_color_words_grow(bv, i + 1, n, w);
    lemma_distinct_seq_props(color_words_upto(bv, n));
}

/// The colored count is bounded by the blocks seen, and the catalogs by
/// their sources.
pub proof fn lemma_catalog_bounds(bv: BuildingV)
    ensures
        rot_catalog(bv).len() <= bv.blocks.len(),
        color_catalog(bv).len() <= colored_count(bv),
        0 <= colored_count(bv) <= bv.blocks.len(),
{
    let n = bv.blocks.len() as int;
    lemma_rot_keys_len(bv, n);
    lemma_distinct_seq_props(rot_keys_upto(bv, n));
    lemma_distinct_seq_props(color_words_upto(bv, n));
    lemma_color_words_len(bv, n);
    lemma_colored_bound(bv, n);
}

pub proof fn lemma_color_words_len(bv: BuildingV, n: int)
    requires
        n >= 0,
    ensures
        color_words_upto(bv, n).len() == colored_upto(bv, n),
    decreases n,
{
    if n > 0 {
        lemma_color_words_len(bv, n - 1);
    }
}

/// The transient catalog state of one encode pass.
pub struct Plan {
    pub rot_cat: Vec<u64>,
    pub rot_slots: Vec<usize>,
    pub color_cat: Vec<u64>,
    pub color_slots: Vec<usize>,
    pub colored: usize,
}

/// What the encode pass relies on: the vectors mirror the mathematical
/// catalogs and every block's slot is its value's first occurrence.
pub open spec fn plan_ok(p: Plan, bv: BuildingV) -> bool {
    &&& p.rot_cat@ == rot_catalog(bv)
    &&& p.rot_slots@.len() == bv.blocks.len()
    &&& forall|i: int|
        0 <= i < bv.blocks.len() ==> #[trigger] p.rot_slots@[i] == slot_in(
            rot_catalog(bv),
            rot_key_of(bv.blocks[i].rotation),
        )
    &&& p.color_cat@ == color_catalog(bv)
    &&& p.color_slots@.len() == bv.blocks.len()
    &&& forall|i: int|
        0 <= i < bv.blocks.len() ==> match bv.blocks[i].color {
            Some(c) => #[trigger] p.color_slots@[i] == slot_in(color_catalog(bv), color_word(c)),
            None => true,
        }
    &&& p.colored == colored_count(bv)
}

/// Runs the compression pass: packs every rotation and color into the
/// order-preserving catalogs and records each block's slot.
pub fn plan_catalogs(b: &crate::model::Building) -> (p: Plan)
    ensures
        plan_ok(p, b@),
{
    let ghost bv = b@;
    let mut rset = catalog_new();
    let mut cset = catalog_new();
    let mut rot_slots: Vec<usize> = Vec::new();
    let mut color_slots: Vec<usize> = Vec::new();
    let mut colored: usize = 0;
    let n = b.blocks.len();
    let mut i: usize = 0;
    while i < n
        invariant
            n == bv.blocks.len(),
            bv == b@,
            i <= n,
            catalog_entries(rset) == distinct_seq(rot_keys_upto(bv, i as int)),
            catalog_entries(cset) == distinct_seq(color_words_upto(bv, i as int)),
            rot_slots@.len() == i,
            color_slots@.len() == i,
            colored <= i,
            colored == colored_upto(bv, i as int),
            forall|j: int|
                0 <= j < i ==> #[trigger] rot_slots@[j] < catalog_entries(rset).len()
                    && catalog_entries(rset)[rot_slots@[j] as int] == rot_key_of(
                    bv.blocks[j].rotation,
                ),
            forall|j: int|
                0 <= j < i ==> match bv.blocks[j].color {
                    Some(c) => #[trigger] color_slots@[j] < catalog_entries(cset).len()
                        && catalog_entries(cset)[color_slots@[j] as int] == color_word(c),
                    None => true,
                },
        decreases n - i,
    {
        let block = &b.blocks[i];
        let key = rot_key(&block.rotation);
        proof {
            assert(bv.blocks[i as int] == b.blocks@.map_values(|blk: crate::model::Block| blk@)[i as int]);
            lemma_distinct_step(rot_keys_upto(bv, i as int), key);
            assert(rot_keys_upto(bv, i + 1) == rot_keys_upto(bv, i as int).push(key));
        }
        let (slot, _fresh) = catalog_insert(&mut rset, key);
        rot_slots.push(slot);
        match &block.color {
            Some(c) => {
                let word = crate::primitives::pack_color(*c) as u64;
                proof {
                    lemma_distinct_step(color_words_upto(bv, i as int), word);
                    assert(color_words_upto(bv, i + 1) == color_words_upto(bv, i as int).push(
                        word,
                    ));
                }
                let (cslot, _cfresh) = catalog_insert(&mut cset, word);
                color_slots.push(cslot);
                colored = colored + 1;
                proof {
                    lemma_colored_bound(bv, i + 1);
                }
            },
            None => {
                color_slots.push(0);
                assert(color_words_upto(bv, i + 1) == color_words_upto(bv, i as int));
            },
        }
        i = i + 1;
    }
    let rot_cat = catalog_to_vec(&rset);
    let color_cat = catalog_to_vec(&cset);
    proof {
        lemma_distinct_seq_props(rot_keys_upto(bv, n as int));
        lemma_distinct_seq_props(color_words_upto(bv, n as int));
        assert forall|j: int| 0 <= j < bv.blocks.len() implies #[trigger] rot_slots@[j]
            == slot_in(rot_catalog(bv), rot_key_of(bv.blocks[j].rotation)) by {
            lemma_slot_in_unique(
                rot_catalog(bv),
                rot_key_of(bv.blocks[j].rotation),
                rot_slots@[j] as int,
            );
        }
        assert forall|j: int|
            0 <= j < bv.blocks.len() && bv.blocks[j].color is Some implies match bv.blocks[j].color {
            Some(c) => #[trigger] color_slots@[j] == slot_in(color_catalog(bv), color_word(c)),
            None => true,
        } by {
            match bv.blocks[j].color {
                Some(c) => {
                    lemma_slot_in_unique(
                        color_catalog(bv),
                        color_word(c),
                        color_slots@[j] as int,
                    );
                },
                None => {},
            }
        }
    }
    Plan { rot_cat, rot_slots, color_cat, color_slots, colored }
}

/// The colored count never exceeds the blocks seen.
proof fn lemma_colored_bound(bv: BuildingV, n: int)
    ensures
        0 <= colored_upto(bv, n) <= (if n >= 0 {
            n
        } else {
            0
        }),
    decreases n,
{
    if n > 0 {
        lemma_colored_bound(bv, n - 1);
    }
}

/// In a duplicate-free catalog the slot of a present value is the one index
/// holding it.
pub proof fn lemma_slot_in_unique(cat: Seq<u64>, x: u64, k: int)
    requires
        no_dups(cat),
        0 <= k < cat.len(),
        cat[k] == x,
    ensures
        slot_in(cat, x) == k,
{
    assert(cat.contains(x));
    lemma_slot_in_props(cat, x);
    let v = slot_in(cat, x);
    if v != k {
        assert(cat[v] == cat[k]);
        assert(false);
    }
}

} // verus!
