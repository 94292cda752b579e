use vstd::prelude::*;
use crate::state::count_valid;
use crate::state::decoded_bits;
use crate::state::decoded_values;

verus! {

/// Round trip for pages whose slots are all valid: when the page holds
/// exactly one value per slot, the decode appends the page's byte strings
/// unchanged and in order; a required page contributes no validity bits
/// at all, and an optional one contributes only `true` bits.
pub proof fn lemma_round_trip_all_valid(vals: Seq<Seq<u8>>, slots: Seq<bool>)
    requires
        slots.len() == vals.len(),
        forall|i: int| 0 <= i < slots.len() ==> slots[i],
    ensures
        decoded_values(vals, slots) == vals,
        count_valid(slots) == vals.len(),
        decoded_bits(slots, false) == Seq::<bool>::empty(),
        decoded_bits(slots, true) == Seq::new(slots.len(), |i: int| true),
    decreases slots.len(),
{
    if slots.len() == 0 {
        assert(decoded_values(vals, slots) =~= vals);
        assert(decoded_bits(slots, true) =~= Seq::new(slots.len(), |i: int| true));
    } else {
        assert forall|i: int| 0 <= i < slots.skip(1).len() implies slots.skip(1)[i] by {
            assert(slots.skip(1)[i] == slots[i + 1]);
        }
        lemma_round_trip_all_valid(vals.skip(1), slots.skip(1));
        lemma_count_valid_all(slots);
        assert(decoded_values(vals, slots) =~= vals);
        assert(decoded_bits(slots, false) =~= Seq::<bool>::empty());
        assert(decoded_bits(slots, true) =~= Seq::new(slots.len(), |i: int| true));
    }
}

/// All-valid slots count themselves.
pub proof fn lemma_count_valid_all(slots: Seq<bool>)
    requires
        forall|i: int| 0 <= i < slots.len() ==> slots[i],
    ensures
        count_valid(slots) == slots.len(),
    decreases slots.len(),
{
    if slots.len() > 0 {
        assert forall|i: int| 0 <= i < slots.skip(1).len() implies slots.skip(1)[i] by {
            assert(slots.skip(1)[i] == slots[i + 1]);
        }
        lemma_count_valid_all(slots.skip(1));
    }
}

/// Round trip for optional pages with nulls: the validity bits mirror the
/// slots exactly — `false` precisely at the null slots — and every null
/// slot's value is the empty byte string.
pub proof fn lemma_optional_nulls(vals: Seq<Seq<u8>>, slots: Seq<bool>)
    ensures
        decoded_values(vals, slots).len() == slots.len(),
        decoded_bits(slots, true).len() == slots.len(),
        forall|i: int| 0 <= i < slots.len() ==> decoded_bits(slots, true)[i] == slots[i],
        forall|i: int|
            0 <= i < slots.len() && !slots[i] ==> decoded_values(vals, slots)[i]
                == Seq::<u8>::empty(),
    decreases slots.len(),
{
    if slots.len() > 0 {
        let tailv: Seq<Seq<u8>> = if slots[0] && vals.len() > 0 {
            vals.skip(1)
        } else {
            vals
        };
        lemma_optional_nulls(tailv, slots.skip(1));
        assert forall|i: int|
            0 <= i < slots.len() implies decoded_bits(slots, true)[i] == slots[i] by {
            if i > 0 {
                assert(decoded_bits(slots, true)[i] == decoded_bits(slots.skip(1), true)[i - 1]);
                assert(slots.skip(1)[i - 1] == slots[i]);
            }
        }
        assert forall|i: int|
            0 <= i < slots.len() && !slots[i] implies decoded_values(vals, slots)[i]
            == Seq::<u8>::empty() by {
            if i > 0 {
                assert(decoded_values(vals, slots)[i] == decoded_values(tailv, slots.skip(1))[i
                    - 1]);
                assert(slots.skip(1)[i - 1] == slots[i]);
            }
        }
    }
}

/// Null-index exclusion: the decode reads only the first
/// `count_valid(slots)` page values — null slots consume nothing — so two
/// pages of equal length that agree on those values decode identically,
/// whatever the rest holds.
pub proof fn lemma_nulls_consume_nothing(vals1: Seq<Seq<u8>>, vals2: Seq<Seq<u8>>, slots: Seq<
    bool,
>)
    requires
        vals1.len() == vals2.len(),
        forall|j: int| 0 <= j < count_valid(slots) && j < vals1.len() ==> vals1[j] == vals2[j],
    ensures
        decoded_values(vals1, slots) == decoded_values(vals2, slots),
    decreases slots.len(),
{
    if slots.len() > 0 {
        if slots[0] {
            if vals1.len() > 0 {
                assert(0 < count_valid(slots));
                assert(vals1[0] == vals2[0]);
                assert forall|j: int|
                    0 <= j < count_valid(slots.skip(1)) && j < vals1.skip(1).len() implies vals1.skip(
                    1,
                )[j] == vals2.skip(1)[j] by {
                    assert(count_valid(slots) == 1 + count_valid(slots.skip(1)));
                    assert(vals1.skip(1)[j] == vals1[j + 1]);
                    assert(vals2.skip(1)[j] == vals2[j + 1]);
                }
                lemma_nulls_consume_nothing(vals1.skip(1), vals2.skip(1), slots.skip(1));
                assert(decoded_values(vals1, slots) =~= decoded_values(vals2, slots));
            } else {
                lemma_nulls_consume_nothing(vals1, vals2, slots.skip(1));
                assert(decoded_values(vals1, slots) =~= decoded_values(vals2, slots));
            }
        } else {
            assert(count_valid(slots) == count_valid(slots.skip(1)));
            lemma_nulls_consume_nothing(vals1, vals2, slots.skip(1));
            assert(decoded_values(vals1, slots) =~= decoded_values(vals2, slots));
        }
    }
}

} // verus!
