//! The digit sequences of literals: their integer value, and the
//! trimming of leading and trailing zero digits that the parser applies.
use vstd::prelude::*;

verus! {

use vstd::arithmetic::power2::{pow2, lemma_pow2_adds, lemma2_to64};

/// The integer denoted by a sequence of hex digit values, most
/// significant first.
pub open spec fn digits_val(ds: Seq<u8>) -> nat
    decreases ds.len(),
{
    if ds.len() == 0 {
        0
    } else {
        (digits_val(ds.drop_last()) * 16 + ds.last()) as nat
    }
}

/// Digit sequences of nibbles stay below the power of two with four bits
/// per digit.
pub proof fn lemma_digits_val_bound(ds: Seq<u8>)
    requires
        forall|i: int| 0 <= i < ds.len() ==> ds[i] < 16,
    ensures
        digits_val(ds) < pow2(4 * ds.len()),
    decreases ds.len(),
{
    lemma2_to64();
    if ds.len() > 0 {
        lemma_digits_val_bound(ds.drop_last());
        lemma_pow2_adds(4 * (ds.len() - 1) as nat, 4);
        assert(digits_val(ds.drop_last()) * 16 + ds.last() < pow2(4 * (ds.len() - 1) as nat) * 16);
    }
}

/// A digit sequence with a non-zero leading digit reaches the power of
/// two of its remaining digits.
pub proof fn lemma_digits_val_lower(ds: Seq<u8>)
    requires
        ds.len() > 0,
        ds[0] != 0,
    ensures
        digits_val(ds) >= pow2((4 * (ds.len() - 1)) as nat),
    decreases ds.len(),
{
    lemma2_to64();
    if ds.len() == 1 {
        assert(digits_val(ds) == ds[0]);
    } else {
        lemma_digits_val_lower(ds.drop_last());
        lemma_pow2_adds((4 * (ds.len() - 2)) as nat, 4);
        assert(digits_val(ds.drop_last()) * 16 >= pow2((4 * (ds.len() - 2)) as nat) * 16);
    }
}

/// Index of the first non-zero digit, or the length when all digits are
/// zero.
pub open spec fn first_nonzero(ds: Seq<u8>) -> int
    decreases ds.len(),
{
    if ds.len() == 0 {
        0
    } else if ds[0] != 0 {
        0
    } else {
        1 + first_nonzero(ds.skip(1))
    }
}

/// Index of the last non-zero digit, or `-1` when all digits are zero.
pub open spec fn last_nonzero(ds: Seq<u8>) -> int
    decreases ds.len(),
{
    if ds.len() == 0 {
        -1
    } else if ds.last() != 0 {
        ds.len() - 1
    } else {
        last_nonzero(ds.drop_last())
    }
}

/// What `first_nonzero` finds: everything before it is zero, and it
/// points at a non-zero digit unless there is none.
pub proof fn lemma_first_nonzero(ds: Seq<u8>)
    ensures
        0 <= first_nonzero(ds) <= ds.len(),
        forall|i: int| 0 <= i < first_nonzero(ds) ==> ds[i] == 0,
        first_nonzero(ds) < ds.len() ==> ds[first_nonzero(ds)] != 0,
    decreases ds.len(),
{
    if ds.len() > 0 && ds[0] == 0 {
        lemma_first_nonzero(ds.skip(1));
        assert(forall|i: int| 1 <= i < ds.len() ==> ds[i] == ds.skip(1)[i - 1]);
    }
}

/// What `last_nonzero` finds: everything after it is zero, and it points
/// at a non-zero digit unless there is none.
pub proof fn lemma_last_nonzero(ds: Seq<u8>)
    ensures
        -1 <= last_nonzero(ds) < ds.len(),
        forall|i: int| last_nonzero(ds) < i < ds.len() ==> ds[i] == 0,
        last_nonzero(ds) >= 0 ==> ds[last_nonzero(ds)] != 0,
    decreases ds.len(),
{
    if ds.len() > 0 && ds.last() == 0 {
        lemma_last_nonzero(ds.drop_last());
        assert(forall|i: int| 0 <= i < ds.len() - 1 ==> ds.drop_last()[i] == ds[i]);
    }
}

/// The two searches agree on whether a non-zero digit exists at all.
pub proof fn lemma_nonzero_agree(ds: Seq<u8>)
    ensures
        (first_nonzero(ds) == ds.len()) <==> (last_nonzero(ds) == -1),
        first_nonzero(ds) < ds.len() ==> first_nonzero(ds) <= last_nonzero(ds),
{
    lemma_first_nonzero(ds);
    lemma_last_nonzero(ds);
    if first_nonzero(ds) < ds.len() {
        if last_nonzero(ds) < first_nonzero(ds) {
            assert(ds[first_nonzero(ds)] == 0);
        }
    }
    if last_nonzero(ds) >= 0 {
        if first_nonzero(ds) > last_nonzero(ds) {
            assert(ds[last_nonzero(ds)] == 0);
        }
    }
}

/// Strip leading and trailing zero digits from a raw digit sequence,
/// adjusting the count of digits before the radix point. The result is
/// the canonical digit sequence of a literal together with its
/// `decimal_offset`.
pub open spec fn normalize(ds: Seq<u8>, ipart_len: int) -> (Seq<u8>, int) {
    let f = first_nonzero(ds);
    if f == ds.len() {
        (Seq::empty(), 0)
    } else {
        (ds.subrange(f, last_nonzero(ds) + 1), ipart_len - f)
    }
}

/// Normalization yields a well-formed digit sequence: empty, or trimmed
/// at both ends, with every digit a nibble value.
pub proof fn lemma_normalize_wf(ds: Seq<u8>, ipart_len: int)
    requires
        forall|i: int| 0 <= i < ds.len() ==> ds[i] < 16,
    ensures
        ({
            let t = normalize(ds, ipart_len).0;
            &&& forall|i: int| 0 <= i < t.len() ==> t[i] < 16
            &&& t.len() > 0 ==> t[0] != 0 && t[t.len() - 1] != 0
        }),
{
    lemma_first_nonzero(ds);
    lemma_last_nonzero(ds);
    lemma_nonzero_agree(ds);
}

} // verus!
