//! The wire layout read back: for every record a parse function that is
//! the exact inverse of its encoding, with the lemmas that say so.
//!
//! Every parser is strict: it accepts exactly the bytes the encoder
//! produces, so a parse that succeeds pins the value down completely.
use vstd::prelude::*;
use crate::primitives::{enc_i16, enc_u16, enc_u32, lemma_p_i16, lemma_p_u16, lemma_p_u32,
    p_i16, p_u16, p_u32};
use crate::wire::{enc_dropdown_bytes, enc_i32, enc_i32s, enc_quads, enc_quad_u32,
    enc_toggle_bytes, enc_triple_i16, enc_triple_u16, enc_triple_u32, enc_triples_u16,
    enc_triples_u32, enc_u16s, enc_u32s};

verus! {

// ---------------------------------------------------------------------------
// Element parsers
// ---------------------------------------------------------------------------

pub open spec fn p_byte(s: Seq<u8>, i: int) -> Option<(int, u8)> {
    crate::primitives::p_u8(s, i)
}

pub open spec fn p_i32(s: Seq<u8>, i: int) -> Option<(int, i32)> {
    match p_u32(s, i) {
        Some((j, w)) => Some((j, w as i32)),
        None => None,
    }
}

pub proof fn lemma_p_i32(s: Seq<u8>, i: int, x: i32)
    requires
        0 <= i,
        i + 4 <= s.len(),
        s.subrange(i, i + 4) == enc_i32(x),
    ensures
        p_i32(s, i) == Some((i + 4, x)),
{
    lemma_p_u32(s, i, x as u32);
    assert((x as u32) as i32 == x) by (bit_vector);
}

pub open spec fn p_triple_u32(s: Seq<u8>, i: int) -> Option<(int, (u32, u32, u32))> {
    match p_u32(s, i) {
        Some((j, a)) => match p_u32(s, j) {
            Some((k, b)) => match p_u32(s, k) {
                Some((l, c)) => Some((l, (a, b, c))),
                None => None,
            },
            None => None,
        },
        None => None,
    }
}

pub open spec fn p_triple_u16(s: Seq<u8>, i: int) -> Option<(int, (u16, u16, u16))> {
    match p_u16(s, i) {
        Some((j, a)) => match p_u16(s, j) {
            Some((k, b)) => match p_u16(s, k) {
                Some((l, c)) => Some((l, (a, b, c))),
                None => None,
            },
            None => None,
        },
        None => None,
    }
}

pub open spec fn p_triple_i16(s: Seq<u8>, i: int) -> Option<(int, (i16, i16, i16))> {
    match p_i16(s, i) {
        Some((j, a)) => match p_i16(s, j) {
            Some((k, b)) => match p_i16(s, k) {
                Some((l, c)) => Some((l, (a, b, c))),
                None => None,
            },
            None => None,
        },
        None => None,
    }
}

pub open spec fn p_quad_u32(s: Seq<u8>, i: int) -> Option<(int, (u32, u32, u32, u32))> {
    match p_u32(s, i) {
        Some((j, a)) => match p_u32(s, j) {
            Some((k, b)) => match p_u32(s, k) {
                Some((l, c)) => match p_u32(s, l) {
                    Some((m, d)) => Some((m, (a, b, c, d))),
                    None => None,
                },
                None => None,
            },
            None => None,
        },
        None => None,
    }
}

/// Splits a subrange premise into premises on its two halves.
pub proof fn lemma_split(s: Seq<u8>, i: int, e1: Seq<u8>, e2: Seq<u8>)
    requires
        0 <= i,
        i + e1.len() + e2.len() <= s.len(),
        s.subrange(i, i + e1.len() + e2.len()) == e1 + e2,
    ensures
        s.subrange(i, i + e1.len()) == e1,
        s.subrange(i + e1.len(), i + e1.len() + e2.len()) == e2,
{
    let whole = s.subrange(i, i + e1.len() + e2.len());
    assert forall|k: int| 0 <= k < e1.len() implies s.subrange(i, i + e1.len() as int)[k]
        == e1[k] by {
        assert(whole[k] == s[i + k]);
    }
    assert(s.subrange(i, i + e1.len() as int) =~= e1);
    assert forall|k: int| 0 <= k < e2.len() implies s.subrange(
        i + e1.len(),
        i + e1.len() + e2.len(),
    )[k] == e2[k] by {
        assert(whole[e1.len() + k] == s[i + e1.len() + k]);
    }
    assert(s.subrange(i + e1.len(), i + e1.len() + e2.len()) =~= e2);
}

pub proof fn lemma_p_triple_u32(s: Seq<u8>, i: int, t: (u32, u32, u32))
    requires
        0 <= i,
        i + 12 <= s.len(),
        s.subrange(i, i + 12) == enc_triple_u32(t),
    ensures
        p_triple_u32(s, i) == Some((i + 12, t)),
{
    assert(enc_triple_u32(t) =~= enc_u32(t.0) + (enc_u32(t.1) + enc_u32(t.2)));
    lemma_split(s, i, enc_u32(t.0), enc_u32(t.1) + enc_u32(t.2));
    lemma_split(s, i + 4, enc_u32(t.1), enc_u32(t.2));
    lemma_p_u32(s, i, t.0);
    lemma_p_u32(s, i + 4, t.1);
    lemma_p_u32(s, i + 8, t.2);
}

pub proof fn lemma_p_triple_u16(s: Seq<u8>, i: int, t: (u16, u16, u16))
    requires
        0 <= i,
        i + 6 <= s.len(),
        s.subrange(i, i + 6) == enc_triple_u16(t),
    ensures
        p_triple_u16(s, i) == Some((i + 6, t)),
{
    assert(enc_triple_u16(t) =~= enc_u16(t.0) + (enc_u16(t.1) + enc_u16(t.2)));
    lemma_split(s, i, enc_u16(t.0), enc_u16(t.1) + enc_u16(t.2));
    lemma_split(s, i + 2, enc_u16(t.1), enc_u16(t.2));
    lemma_p_u16(s, i, t.0);
    lemma_p_u16(s, i + 2, t.1);
    lemma_p_u16(s, i + 4, t.2);
}

pub proof fn lemma_p_triple_i16(s: Seq<u8>, i: int, t: (i16, i16, i16))
    requires
        0 <= i,
        i + 6 <= s.len(),
        s.subrange(i, i + 6) == enc_triple_i16(t),
    ensures
        p_triple_i16(s, i) == Some((i + 6, t)),
{
    assert(enc_triple_i16(t) =~= enc_i16(t.0) + (enc_i16(t.1) + enc_i16(t.2)));
    lemma_split(s, i, enc_i16(t.0), enc_i16(t.1) + enc_i16(t.2));
    lemma_split(s, i + 2, enc_i16(t.1), enc_i16(t.2));
    lemma_p_i16(s, i, t.0);
    lemma_p_i16(s, i + 2, t.1);
    lemma_p_i16(s, i + 4, t.2);
}

pub proof fn lemma_p_quad_u32(s: Seq<u8>, i: int, t: (u32, u32, u32, u32))
    requires
        0 <= i,
        i + 16 <= s.len(),
        s.subrange(i, i + 16) == enc_quad_u32(t),
    ensures
        p_quad_u32(s, i) == Some((i + 16, t)),
{
    assert(enc_quad_u32(t) =~= enc_u32(t.0) + (enc_u32(t.1) + enc_u32(t.2) + enc_u32(t.3)));
    lemma_split(s, i, enc_u32(t.0), enc_u32(t.1) + enc_u32(t.2) + enc_u32(t.3));
    assert(enc_u32(t.1) + enc_u32(t.2) + enc_u32(t.3) =~= enc_u32(t.1) + (enc_u32(t.2) + enc_u32(
        t.3,
    )));
    lemma_split(s, i + 4, enc_u32(t.1), enc_u32(t.2) + enc_u32(t.3));
    lemma_split(s, i + 8, enc_u32(t.2), enc_u32(t.3));
    lemma_p_u32(s, i, t.0);
    lemma_p_u32(s, i + 4, t.1);
    lemma_p_u32(s, i + 8, t.2);
    lemma_p_u32(s, i + 12, t.3);
}

// ---------------------------------------------------------------------------
// Repetition parsers
// ---------------------------------------------------------------------------

pub open spec fn p_u16s(s: Seq<u8>, i: int, n: int) -> Option<(int, Seq<u16>)>
    decreases n,
{
    if n <= 0 {
        Some((i, Seq::empty()))
    } else {
        match p_u16s(s, i, n - 1) {
            Some((j, xs)) => match p_u16(s, j) {
                Some((k, x)) => Some((k, xs.push(x))),
                None => None,
            },
            None => None,
        }
    }
}

pub open spec fn p_u32s(s: Seq<u8>, i: int, n: int) -> Option<(int, Seq<u32>)>
    decreases n,
{
    if n <= 0 {
        Some((i, Seq::empty()))
    } else {
        match p_u32s(s, i, n - 1) {
            Some((j, xs)) => match p_u32(s, j) {
                Some((k, x)) => Some((k, xs.push(x))),
                None => None,
            },
            None => None,
        }
    }
}

pub open spec fn p_i32s(s: Seq<u8>, i: int, n: int) -> Option<(int, Seq<i32>)>
    decreases n,
{
    if n <= 0 {
        Some((i, Seq::empty()))
    } else {
        match p_i32s(s, i, n - 1) {
            Some((j, xs)) => match p_i32(s, j) {
                Some((k, x)) => Some((k, xs.push(x))),
                None => None,
            },
            None => None,
        }
    }
}

pub open spec fn p_quads(s: Seq<u8>, i: int, n: int) -> Option<(int, Seq<(u32, u32, u32, u32)>)>
    decreases n,
{
    if n <= 0 {
        Some((i, Seq::empty()))
    } else {
        match p_quads(s, i, n - 1) {
            Some((j, xs)) => match p_quad_u32(s, j) {
                Some((k, x)) => Some((k, xs.push(x))),
                None => None,
            },
            None => None,
        }
    }
}

pub open spec fn p_triples_u32(s: Seq<u8>, i: int, n: int) -> Option<(int, Seq<(u32, u32, u32)>)>
    decreases n,
{
    if n <= 0 {
        Some((i, Seq::empty()))
    } else {
        match p_triples_u32(s, i, n - 1) {
            Some((j, xs)) => match p_triple_u32(s, j) {
                Some((k, x)) => Some((k, xs.push(x))),
                None => None,
            },
            None => None,
        }
    }
}

pub open spec fn p_triples_u16(s: Seq<u8>, i: int, n: int) -> Option<(int, Seq<(u16, u16, u16)>)>
    decreases n,
{
    if n <= 0 {
        Some((i, Seq::empty()))
    } else {
        match p_triples_u16(s, i, n - 1) {
            Some((j, xs)) => match p_triple_u16(s, j) {
                Some((k, x)) => Some((k, xs.push(x))),
                None => None,
            },
            None => None,
        }
    }
}

/// A toggle byte must be exactly zero or one.
pub open spec fn p_toggle_bytes(s: Seq<u8>, i: int, n: int) -> Option<(int, Seq<bool>)>
    decreases n,
{
    if n <= 0 {
        Some((i, Seq::empty()))
    } else {
        match p_toggle_bytes(s, i, n - 1) {
            Some((j, xs)) => match p_byte(s, j) {
                Some((k, x)) => if x <= 1 {
                    Some((k, xs.push(x == 1)))
                } else {
                    None
                },
                None => None,
            },
            None => None,
        }
    }
}

/// Compact dropdown values widen back from single bytes.
pub open spec fn p_dropdown_bytes(s: Seq<u8>, i: int, n: int) -> Option<(int, Seq<i32>)>
    decreases n,
{
    if n <= 0 {
        Some((i, Seq::empty()))
    } else {
        match p_dropdown_bytes(s, i, n - 1) {
            Some((j, xs)) => match p_byte(s, j) {
                Some((k, x)) => Some((k, xs.push(x as i32))),
                None => None,
            },
            None => None,
        }
    }
}

// ---------------------------------------------------------------------------
// Repetition round trips
// ---------------------------------------------------------------------------

pub proof fn lemma_p_u16s(s: Seq<u8>, i: int, xs: Seq<u16>, n: int)
    requires
        0 <= n <= xs.len(),
        0 <= i,
        i + enc_u16s(xs, n).len() <= s.len(),
        s.subrange(i, i + enc_u16s(xs, n).len()) == enc_u16s(xs, n),
    ensures
        p_u16s(s, i, n) == Some((i + enc_u16s(xs, n).len(), xs.take(n))),
    decreases n,
{
    if n <= 0 {
        assert(xs.take(0) =~= Seq::<u16>::empty());
    } else {
        let e1 = enc_u16s(xs, n - 1);
        let e2 = enc_u16(xs[n - 1]);
        lemma_split(s, i, e1, e2);
        lemma_p_u16s(s, i, xs, n - 1);
        lemma_p_u16(s, i + e1.len(), xs[n - 1]);
        assert(xs.take(n - 1).push(xs[n - 1]) =~= xs.take(n));
    }
}

pub proof fn lemma_p_u32s(s: Seq<u8>, i: int, xs: Seq<u32>, n: int)
    requires
        0 <= n <= xs.len(),
        0 <= i,
        i + enc_u32s(xs, n).len() <= s.len(),
        s.subrange(i, i + enc_u32s(xs, n).len()) == enc_u32s(xs, n),
    ensures
        p_u32s(s, i, n) == Some((i + enc_u32s(xs, n).len(), xs.take(n))),
    decreases n,
{
    if n <= 0 {
        assert(xs.take(0) =~= Seq::<u32>::empty());
    } else {
        let e1 = enc_u32s(xs, n - 1);
        let e2 = enc_u32(xs[n - 1]);
        lemma_split(s, i, e1, e2);
        lemma_p_u32s(s, i, xs, n - 1);
        lemma_p_u32(s, i + e1.len(), xs[n - 1]);
        assert(xs.take(n - 1).push(xs[n - 1]) =~= xs.take(n));
    }
}

pub proof fn lemma_p_i32s(s: Seq<u8>, i: int, xs: Seq<i32>, n: int)
    requires
        0 <= n <= xs.len(),
        0 <= i,
        i + enc_i32s(xs, n).len() <= s.len(),
        s.subrange(i, i + enc_i32s(xs, n).len()) == enc_i32s(xs, n),
    ensures
        p_i32s(s, i, n) == Some((i + enc_i32s(xs, n).len(), xs.take(n))),
    decreases n,
{
    if n <= 0 {
        assert(xs.take(0) =~= Seq::<i32>::empty());
    } else {
        let e1 = enc_i32s(xs, n - 1);
        let e2 = enc_i32(xs[n - 1]);
        lemma_split(s, i, e1, e2);
        lemma_p_i32s(s, i, xs, n - 1);
        lemma_p_i32(s, i + e1.len(), xs[n - 1]);
        assert(xs.take(n - 1).push(xs[n - 1]) =~= xs.take(n));
    }
}

pub proof fn lemma_p_quads(s: Seq<u8>, i: int, xs: Seq<(u32, u32, u32, u32)>, n: int)
    requires
        0 <= n <= xs.len(),
        0 <= i,
        i + enc_quads(xs, n).len() <= s.len(),
        s.subrange(i, i + enc_quads(xs, n).len()) == enc_quads(xs, n),
    ensures
        p_quads(s, i, n) == Some((i + enc_quads(xs, n).len(), xs.take(n))),
    decreases n,
{
    if n <= 0 {
        assert(xs.take(0) =~= Seq::<(u32, u32, u32, u32)>::empty());
    } else {
        let e1 = enc_quads(xs, n - 1);
        let e2 = enc_quad_u32(xs[n - 1]);
        lemma_split(s, i, e1, e2);
        lemma_p_quads(s, i, xs, n - 1);
        lemma_p_quad_u32(s, i + e1.len(), xs[n - 1]);
        assert(xs.take(n - 1).push(xs[n - 1]) =~= xs.take(n));
    }
}

pub proof fn lemma_p_triples_u32(s: Seq<u8>, i: int, xs: Seq<(u32, u32, u32)>, n: int)
    requires
        0 <= n <= xs.len(),
        0 <= i,
        i + enc_triples_u32(xs, n).len() <= s.len(),
        s.subrange(i, i + enc_triples_u32(xs, n).len()) == enc_triples_u32(xs, n),
    ensures
        p_triples_u32(s, i, n) == Some((i + enc_triples_u32(xs, n).len(), xs.take(n))),
    decreases n,
{
    if n <= 0 {
        assert(xs.take(0) =~= Seq::<(u32, u32, u32)>::empty());
    } else {
        let e1 = enc_triples_u32(xs, n - 1);
        let e2 = enc_triple_u32(xs[n - 1]);
        lemma_split(s, i, e1, e2);
        lemma_p_triples_u32(s, i, xs, n - 1);
        lemma_p_triple_u32(s, i + e1.len(), xs[n - 1]);
        assert(xs.take(n - 1).push(xs[n - 1]) =~= xs.take(n));
    }
}

pub proof fn lemma_p_triples_u16(s: Seq<u8>, i: int, xs: Seq<(u16, u16, u16)>, n: int)
    requires
        0 <= n <= xs.len(),
        0 <= i,
        i + enc_triples_u16(xs, n).len() <= s.len(),
        s.subrange(i, i + enc_triples_u16(xs, n).len()) == enc_triples_u16(xs, n),
    ensures
        p_triples_u16(s, i, n) == Some((i + enc_triples_u16(xs, n).len(), xs.take(n))),
    decreases n,
{
    if n <= 0 {
        assert(xs.take(0) =~= Seq::<(u16, u16, u16)>::empty());
    } else {
        let e1 = enc_triples_u16(xs, n - 1);
        let e2 = enc_triple_u16(xs[n - 1]);
        lemma_split(s, i, e1, e2);
        lemma_p_triples_u16(s, i, xs, n - 1);
        lemma_p_triple_u16(s, i + e1.len(), xs[n - 1]);
        assert(xs.take(n - 1).push(xs[n - 1]) =~= xs.take(n));
    }
}

pub proof fn lemma_p_toggle_bytes(s: Seq<u8>, i: int, xs: Seq<bool>, n: int)
    requires
        0 <= n <= xs.len(),
        0 <= i,
        i + enc_toggle_bytes(xs, n).len() <= s.len(),
        s.subrange(i, i + enc_toggle_bytes(xs, n).len()) == enc_toggle_bytes(xs, n),
    ensures
        p_toggle_bytes(s, i, n) == Some((i + enc_toggle_bytes(xs, n).len(), xs.take(n))),
    decreases n,
{
    if n <= 0 {
        assert(xs.take(0) =~= Seq::<bool>::empty());
    } else {
        let e1 = enc_toggle_bytes(xs, n - 1);
        let b: u8 = if xs[n - 1] {
            1
        } else {
            0
        };
        let e2 = seq![b];
        lemma_split(s, i, e1, e2);
        lemma_p_toggle_bytes(s, i, xs, n - 1);
        assert(s.subrange(i + e1.len(), i + e1.len() + 1)[0] == s[i + e1.len()]);
        assert(s[i + e1.len()] == b);
        assert(xs.take(n - 1).push(xs[n - 1]) =~= xs.take(n));
    }
}

pub proof fn lemma_p_dropdown_bytes(s: Seq<u8>, i: int, xs: Seq<i32>, n: int)
    requires
        0 <= n <= xs.len(),
        forall|d: int| 0 <= d < xs.len() ==> 0 <= #[trigger] xs[d] <= 0xFF,
        0 <= i,
        i + enc_dropdown_bytes(xs, n).len() <= s.len(),
        s.subrange(i, i + enc_dropdown_bytes(xs, n).len()) == enc_dropdown_bytes(xs, n),
    ensures
        p_dropdown_bytes(s, i, n) == Some((i + enc_dropdown_bytes(xs, n).len(), xs.take(n))),
    decreases n,
{
    if n <= 0 {
        assert(xs.take(0) =~= Seq::<i32>::empty());
    } else {
        let e1 = enc_dropdown_bytes(xs, n - 1);
        let b: u8 = xs[n - 1] as u8;
        let e2 = seq![b];
        lemma_split(s, i, e1, e2);
        lemma_p_dropdown_bytes(s, i, xs, n - 1);
        assert(s.subrange(i + e1.len(), i + e1.len() + 1)[0] == s[i + e1.len()]);
        assert(s[i + e1.len()] == b);
        assert(b as i32 == xs[n - 1]);
        assert(xs.take(n - 1).push(xs[n - 1]) =~= xs.take(n));
    }
}


} // verus!
