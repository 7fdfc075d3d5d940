//! Bit-level model of the signal register word.
//!
//! A register word is a `u32`; bit `i` set means the signal with identifier
//! `i` has fired since the word was last drained. The spec functions here are
//! the mathematical vocabulary that the contracts of [`crate::signal`] and
//! [`crate::executor`] are written in.

use vstd::prelude::*;
use vstd::std_specs::bits::{axiom_u32_leading_zeros, u32_leading_zeros};

verus! {

/// Number of distinct signal identifiers: the width of the register word.
pub const WIDTH: u8 = 32;

/// True when bit `i` of `w` is set (and `i` is a valid bit position).
pub open spec fn bit_set(w: u32, i: u8) -> bool {
    i < 32 && (w >> (i as u32)) & 1u32 == 1u32
}

/// The set of signal identifiers recorded in the word `w`.
pub open spec fn ids_of(w: u32) -> Set<u8> {
    Set::new(|i: u8| bit_set(w, i))
}

/// The word `w` with bit `i` set.
pub open spec fn with_bit(w: u32, i: u8) -> u32 {
    w | (1u32 << (i as u32))
}

/// The word `w` with bit `i` cleared.
pub open spec fn without_bit(w: u32, i: u8) -> u32 {
    w & !(1u32 << (i as u32))
}

/// The position of the highest set bit of `w`; meaningful only for `w != 0`.
pub open spec fn high_bit(w: u32) -> u8 {
    (31 - u32_leading_zeros(w)) as u8
}

/// The identifiers recorded in `w` in the order a snapshot yields them:
/// highest first, each exactly once.
pub open spec fn drain_order(w: u32) -> Seq<u8>
    decreases w,
    via drain_order_decreases
{
    if w == 0 {
        Seq::empty()
    } else {
        seq![high_bit(w)] + drain_order(without_bit(w, high_bit(w)))
    }
}

/// For a non-zero word, the highest set bit really is set, every higher bit
/// is clear, and clearing it strictly decreases the word.
pub proof fn lemma_high_bit(w: u32)
    requires
        w != 0,
    ensures
        bit_set(w, high_bit(w)),
        high_bit(w) < 32,
        forall|j: u8| high_bit(w) < j < 32 ==> !bit_set(w, j),
        without_bit(w, high_bit(w)) < w,
        forall|j: u8| #[trigger] bit_set(without_bit(w, high_bit(w)), j) <==> bit_set(w, j) && j != high_bit(w),
{
    axiom_u32_leading_zeros(w);
    let lz = u32_leading_zeros(w);
    let h = high_bit(w);
    assert(lz < 32);
    assert((w >> ((31 - lz) as u32)) & 1u32 != 0u32);
    assert(h as u32 == (31 - lz) as u32);
    assert((w >> (h as u32)) & 1u32 != 0u32 ==> (w >> (h as u32)) & 1u32 == 1u32) by (bit_vector);
    assert forall|j: u8| high_bit(w) < j < 32 implies !bit_set(w, j) by {
        assert(32 - lz <= (j as u32) && (j as u32) < 32);
        assert((w >> (j as u32)) & 1u32 == 0u32);
    }
    let hh = h as u32;
    assert((w >> hh) & 1u32 == 1u32 && hh < 32 ==> (w & !(1u32 << hh)) < w) by (bit_vector);
    assert forall|j: u8| #[trigger] bit_set(without_bit(w, h), j) <==> bit_set(w, j) && j != h by {
        if j < 32 {
            let jj = j as u32;
            assert(hh < 32 && jj < 32 ==> (((w & !(1u32 << hh)) >> jj) & 1u32 == 1u32 <==> ((w >> jj) & 1u32 == 1u32 && jj != hh))) by (bit_vector);
        }
    }
}

#[via_fn]
proof fn drain_order_decreases(w: u32) {
    if w != 0 {
        lemma_high_bit(w);
    }
}

/// Setting bit `i` records exactly the identifier `i`, on top of what was
/// already recorded.
pub proof fn lemma_with_bit(w: u32, i: u8)
    requires
        i < 32,
    ensures
        ids_of(with_bit(w, i)) == ids_of(w).insert(i),
        with_bit(w, i) != 0,
{
    let ii = i as u32;
    assert forall|j: u8| #[trigger] bit_set(with_bit(w, i), j) <==> bit_set(w, j) || j == i by {
        if j < 32 {
            let jj = j as u32;
            assert(ii < 32 && jj < 32 ==> (((w | (1u32 << ii)) >> jj) & 1u32 == 1u32 <==> ((w >> jj) & 1u32 == 1u32 || jj == ii))) by (bit_vector);
        }
    }
    assert(ids_of(with_bit(w, i)) =~= ids_of(w).insert(i));
    assert(ii < 32 ==> (w | (1u32 << ii)) != 0) by (bit_vector);
}

/// A word records no identifier exactly when it is zero.
pub proof fn lemma_ids_of_empty(w: u32)
    ensures
        w == 0 <==> ids_of(w) =~= Set::<u8>::empty(),
{
    if w == 0 {
        assert forall|j: u8| !bit_set(0u32, j) by {
            if j < 32 {
                let jj = j as u32;
                assert(jj < 32 ==> (0u32 >> jj) & 1u32 == 0u32) by (bit_vector);
            }
        }
    } else {
        lemma_high_bit(w);
        assert(ids_of(w).contains(high_bit(w)));
    }
}

/// The drain order of a word yields exactly the identifiers recorded in it,
/// each exactly once.
pub proof fn lemma_drain_order_exact(w: u32)
    ensures
        drain_order(w).no_duplicates(),
        forall|i: u8| #[trigger] drain_order(w).contains(i) <==> bit_set(w, i),
    decreases w,
{
    if w == 0 {
        lemma_ids_of_empty(w);
        assert forall|i: u8| #[trigger] drain_order(0u32).contains(i) <==> bit_set(0u32, i) by {
            assert(!ids_of(0u32).contains(i));
            assert(drain_order(0u32).len() == 0);
        }
    } else {
        lemma_high_bit(w);
        let h = high_bit(w);
        let rest = without_bit(w, h);
        lemma_drain_order_exact(rest);
        let s = drain_order(w);
        let tail = drain_order(rest);
        assert(s == seq![h] + tail);
        assert forall|i: u8| #[trigger] s.contains(i) <==> bit_set(w, i) by {
            assert(s.len() == 1 + tail.len());
            assert(s[0] == h);
            assert(forall|k: int| 1 <= k < s.len() ==> s[k] == tail[k - 1]);
            if bit_set(w, i) {
                if i == h {
                    assert(s[0] == i);
                } else {
                    assert(bit_set(rest, i));
                    assert(tail.contains(i));
                    let k = choose|k: int| 0 <= k < tail.len() && tail[k] == i;
                    assert(s[k + 1] == i);
                }
            }
            if s.contains(i) {
                let k = choose|k: int| 0 <= k < s.len() && s[k] == i;
                if k == 0 {
                    assert(bit_set(w, h));
                } else {
                    assert(tail[k - 1] == i);
                    assert(tail.contains(i));
                    assert(bit_set(rest, i));
                }
            }
        }
        assert(!tail.contains(h));
        assert(s.no_duplicates()) by {
            assert forall|p: int, q: int| 0 <= p < q < s.len() implies s[p] != s[q] by {
                if p == 0 {
                    assert(tail[q - 1] == s[q]);
                    assert(tail.contains(s[q]) ==> s[q] != h);
                } else {
                    assert(tail[p - 1] == s[p] && tail[q - 1] == s[q]);
                }
            }
        }
    }
}

} // verus!
