//! The orders: of byte strings, of texts, and of scores.

use vstd::prelude::*;
use vstd::utf8::encode_utf8;
use crate::order::lex_less;
use crate::score::{is_finite, is_nan, score_less};
use crate::zset::ranks_before;

verus! {

/// Whether two byte strings part at the place `n`, and `a` comes first there: it ends, or
/// has the lower byte.
pub open spec fn parts_at(a: Seq<u8>, b: Seq<u8>, n: int) -> bool {
    &&& 0 <= n <= a.len()
    &&& n < b.len()
    &&& forall|i: int| 0 <= i < n ==> #[trigger] a[i] == b[i]
    &&& n == a.len() || a[n] < b[n]
}

/// Whether a byte string comes before another: at the first place where they differ, it has
/// ended or has the lower byte.
pub open spec fn bytes_before(a: Seq<u8>, b: Seq<u8>) -> bool {
    exists|n: int| #[trigger] parts_at(a, b, n)
}

/// Byte strings stand in the order of their first difference.
pub proof fn lex_is_bytes_before(a: Seq<u8>, b: Seq<u8>)
    ensures
        lex_less(a, b) == bytes_before(a, b),
    decreases a.len(),
{
    if b.len() == 0 {
        assert forall|n: int| !#[trigger] parts_at(a, b, n) by {}
    } else if a.len() == 0 {
        assert(parts_at(a, b, 0));
    } else if a[0] != b[0] {
        if a[0] < b[0] {
            assert(parts_at(a, b, 0));
        } else {
            assert forall|n: int| !#[trigger] parts_at(a, b, n) by {
                if parts_at(a, b, n) && n > 0 {
                    assert(a[0] == b[0]);
                }
            }
        }
    } else {
        let x = a.drop_first();
        let y = b.drop_first();
        lex_is_bytes_before(x, y);
        if bytes_before(x, y) {
            let n = choose|n: int| #[trigger] parts_at(x, y, n);
            assert forall|i: int| 0 <= i < n + 1 implies #[trigger] a[i] == b[i] by {
                if i > 0 {
                    assert(x[i - 1] == y[i - 1]);
                }
            }
            assert(parts_at(a, b, n + 1));
        }
        if bytes_before(a, b) {
            let n = choose|n: int| #[trigger] parts_at(a, b, n);
            assert forall|i: int| 0 <= i < n - 1 implies #[trigger] x[i] == y[i] by {
                assert(a[i + 1] == b[i + 1]);
            }
            assert(parts_at(x, y, n - 1));
        }
    }
}

/// Whether byte strings stand in order, each once.
pub open spec fn blobs_in_order(l: Seq<Seq<u8>>) -> bool {
    forall|i: int, j: int| 0 <= i < j < l.len() ==> bytes_before(#[trigger] l[i], #[trigger] l[j])
}

/// Whether texts stand in the order of their bytes, each once.
pub open spec fn texts_in_order(l: Seq<Seq<char>>) -> bool {
    forall|i: int, j: int|
        0 <= i < j < l.len() ==> bytes_before(
            encode_utf8(#[trigger] l[i]),
            encode_utf8(#[trigger] l[j]),
        )
}

/// Where the bits of a score stand in the order of scores: those of a negative number count
/// down from -1, with the sign bit set.
pub open spec fn score_place(bits: u64) -> int {
    if bits < 0x8000_0000_0000_0000 {
        bits as int
    } else {
        -1 - (bits - 0x8000_0000_0000_0000)
    }
}

/// Scores stand in the order of their places: so the negative ones come before the others,
/// and those of greater magnitude stand further out.
pub proof fn scores_stand_by_place(a: u64, b: u64)
    ensures
        score_less(a, b) == (score_place(a) < score_place(b)),
        score_place(a) == score_place(b) ==> a == b,
{
}

/// Whether a member with its score comes before another: by score, and at equal scores by
/// its bytes.
pub open spec fn scored_before(a: (Seq<u8>, u64), b: (Seq<u8>, u64)) -> bool {
    ||| score_place(a.1) < score_place(b.1)
    ||| score_place(a.1) == score_place(b.1) && bytes_before(a.0, b.0)
}

/// Members rank by score, and at equal scores by their bytes.
pub proof fn members_rank_by_score(a: (Seq<u8>, u64), b: (Seq<u8>, u64))
    ensures
        ranks_before(a, b) == scored_before(a, b),
{
    scores_stand_by_place(a.1, b.1);
    lex_is_bytes_before(a.0, b.0);
}

/// No number has every exponent bit set: then it is infinite if all other bits but the sign
/// are clear, and no number if one of them is set.
pub proof fn bits_tell_numbers(bits: u64)
    ensures
        is_finite(bits) <==> (bits >> 52) & 0x7ff != 0x7ff,
        is_nan(bits) <==> (bits >> 52) & 0x7ff == 0x7ff && bits & 0xf_ffff_ffff_ffff != 0,
{
    assert(bits >= 0x8000_0000_0000_0000 ==> ((bits - 0x8000_0000_0000_0000
        < 0x7ff0_0000_0000_0000) == ((bits >> 52) & 0x7ff != 0x7ff))) by (bit_vector);
    assert(bits < 0x8000_0000_0000_0000 ==> ((bits < 0x7ff0_0000_0000_0000) == ((bits >> 52)
        & 0x7ff != 0x7ff))) by (bit_vector);
    assert(bits >= 0x8000_0000_0000_0000 ==> ((bits - 0x8000_0000_0000_0000
        > 0x7ff0_0000_0000_0000) == ((bits >> 52) & 0x7ff == 0x7ff && bits & 0xf_ffff_ffff_ffff
        != 0))) by (bit_vector);
    assert(bits < 0x8000_0000_0000_0000 ==> ((bits > 0x7ff0_0000_0000_0000) == ((bits >> 52)
        & 0x7ff == 0x7ff && bits & 0xf_ffff_ffff_ffff != 0))) by (bit_vector);
}

} // verus!
