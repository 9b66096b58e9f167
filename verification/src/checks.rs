//! Validation of permission values against a descriptor.
//!
//! A permission value is valid under a descriptor when three checks pass:
//!
//! 1. *descriptor integrity*: the OR of all descriptor values does not
//!    exceed their sum. Where it does, the descriptor is treated as corrupt
//!    and every value is rejected, zero included;
//! 2. *bit containment*: the value sets no bit outside the OR of all
//!    descriptor values;
//! 3. *magnitude*: the value does not exceed that OR, compared as signed
//!    integers.
//!
//! The sum is computed in `i32` and wraps around on overflow, in two's
//! complement. The integrity check is a defensive guard against
//! misconfigured descriptors, not a security guarantee.

use crate::models::{CapabilityDescriptor, CapilityHexValue};
use vstd::prelude::*;

verus! {

/// The bitwise OR of all values of the descriptor `d`, and `0` where it has
/// none: the permission value with every capability granted.
pub open spec fn max_value(d: Map<Seq<char>, i32>) -> i32
    decreases d.dom().len(),
    when d.dom().finite()
{
    if d.dom().is_empty() {
        0
    } else {
        let name = d.dom().choose();
        d[name] | max_value(d.remove(name))
    }
}

/// The arithmetic sum of all values of the descriptor `d`, as a mathematical
/// integer, and `0` where it has none.
pub open spec fn total_value(d: Map<Seq<char>, i32>) -> int
    decreases d.dom().len(),
    when d.dom().finite()
{
    if d.dom().is_empty() {
        0
    } else {
        let name = d.dom().choose();
        d[name] + total_value(d.remove(name))
    }
}

/// The `i32` that a mathematical integer wraps around to, in two's
/// complement.
pub open spec fn wrap_i32(total: int) -> i32 {
    let low = total % 0x1_0000_0000;
    if low > i32::MAX {
        (low - 0x1_0000_0000) as i32
    } else {
        low as i32
    }
}

/// The sum of all values of the descriptor `d` as an `i32`, wrapped around
/// on overflow.
pub open spec fn sum_value(d: Map<Seq<char>, i32>) -> i32 {
    wrap_i32(total_value(d))
}

/// The descriptor passes the integrity check: the OR of its values does not
/// exceed their sum.
pub open spec fn is_intact(d: Map<Seq<char>, i32>) -> bool {
    max_value(d) <= sum_value(d)
}

/// The permission value `value` is valid under the descriptor `d`.
pub open spec fn is_valid(value: i32, d: Map<Seq<char>, i32>) -> bool {
    &&& is_intact(d)
    &&& value & !max_value(d) == 0
    &&& value <= max_value(d)
}

/// The OR of all values can be taken apart at any name of the descriptor,
/// not only at the chosen one.
pub proof fn lemma_max_value_remove(d: Map<Seq<char>, i32>, name: Seq<char>)
    requires
        d.dom().finite(),
        d.contains_key(name),
    ensures
        max_value(d) == d[name] | max_value(d.remove(name)),
    decreases d.dom().len(),
{
    let chosen = d.dom().choose();
    if chosen != name {
        let rest = d.remove(chosen).remove(name);
        assert(d.remove(name).remove(chosen) == rest);
        lemma_max_value_remove(d.remove(chosen), name);
        lemma_max_value_remove(d.remove(name), chosen);
        let a = d[chosen];
        let b = d[name];
        let c = max_value(rest);
        assert(a | (b | c) == b | (a | c)) by (bit_vector);
    }
}

/// The sum of all values can be taken apart at any name of the descriptor.
pub proof fn lemma_total_value_remove(d: Map<Seq<char>, i32>, name: Seq<char>)
    requires
        d.dom().finite(),
        d.contains_key(name),
    ensures
        total_value(d) == d[name] + total_value(d.remove(name)),
    decreases d.dom().len(),
{
    let chosen = d.dom().choose();
    if chosen != name {
        assert(d.remove(name).remove(chosen) == d.remove(chosen).remove(name));
        lemma_total_value_remove(d.remove(chosen), name);
        lemma_total_value_remove(d.remove(name), chosen);
    }
}

/// An entry under a new name adds its value to the OR and to the sum.
pub proof fn lemma_insert_new_name(d: Map<Seq<char>, i32>, name: Seq<char>, value: i32)
    requires
        d.dom().finite(),
        !d.contains_key(name),
    ensures
        max_value(d.insert(name, value)) == max_value(d) | value,
        total_value(d.insert(name, value)) == total_value(d) + value,
        sum_value(d.insert(name, value)) == sum_value(d).wrapping_add(value),
{
    let grown = d.insert(name, value);
    assert(grown.remove(name) == d);
    lemma_max_value_remove(grown, name);
    lemma_total_value_remove(grown, name);
    let rest = max_value(d);
    assert(value | rest == rest | value) by (bit_vector);
}

/// The OR of all values is negative exactly where some value is negative.
pub proof fn lemma_max_value_sign(d: Map<Seq<char>, i32>)
    requires
        d.dom().finite(),
    ensures
        max_value(d) < 0 <==> exists|name: Seq<char>| d.contains_key(name) && #[trigger] d[name] < 0,
    decreases d.dom().len(),
{
    if !d.dom().is_empty() {
        let chosen = d.dom().choose();
        let rest = d.remove(chosen);
        lemma_max_value_sign(rest);
        let a = d[chosen];
        let b = max_value(rest);
        assert((a | b) < 0 <==> a < 0 || b < 0) by (bit_vector);
        if b < 0 {
            let name = choose|name: Seq<char>| rest.contains_key(name) && #[trigger] rest[name] < 0;
            assert(d.contains_key(name) && d[name] < 0);
        }
        if exists|name: Seq<char>| d.contains_key(name) && #[trigger] d[name] < 0 {
            let name = choose|name: Seq<char>| d.contains_key(name) && #[trigger] d[name] < 0;
            if name != chosen {
                assert(rest.contains_key(name) && rest[name] < 0);
            }
        }
    }
}

/// The descriptor without entries: both aggregates are zero, and zero is
/// the only valid value.
pub proof fn lemma_empty_descriptor()
    ensures
        max_value(Map::<Seq<char>, i32>::empty()) == 0,
        total_value(Map::<Seq<char>, i32>::empty()) == 0,
        sum_value(Map::<Seq<char>, i32>::empty()) == 0,
        forall|value: i32| is_valid(value, Map::<Seq<char>, i32>::empty()) <==> value == 0,
{
    assert forall|value: i32| is_valid(value, Map::<Seq<char>, i32>::empty()) <==> value == 0 by {
        assert(value & !0i32 == 0 <==> value == 0) by (bit_vector);
    }
}

/// Decides whether the permission value `value` is valid under `descriptor`.
///
/// Returns `false` for every value where the descriptor fails the integrity
/// check; otherwise `true` exactly when `value` sets no bit outside the OR of
/// the descriptor values and does not exceed that OR. The OR and the sum are
/// taken in one pass over the descriptor.
pub fn is_valid_hex(value: CapilityHexValue, descriptor: &CapabilityDescriptor) -> (valid: bool)
    ensures
        valid == is_valid(value, descriptor@),
{
    let mut combined_value: CapilityHexValue = 0;
    let mut total: CapilityHexValue = 0;
    let count = descriptor.len();
    let mut index: usize = 0;
    proof {
        descriptor.lemma_first_entries_start();
        lemma_empty_descriptor();
    }
    while index < count
        invariant
            index <= count,
            count == descriptor@.len(),
            descriptor.first_entries(count as int) == descriptor@,
            combined_value == max_value(descriptor.first_entries(index as int)),
            total == sum_value(descriptor.first_entries(index as int)),
        decreases count - index,
    {
        if let Some((name, unit_value)) = descriptor.entry_at(index) {
            proof {
                lemma_insert_new_name(descriptor.first_entries(index as int), name@, unit_value);
            }
            combined_value = combined_value | unit_value;
            total = total.wrapping_add(unit_value);
        }
        index += 1;
    }
    if combined_value > total {
        return false;
    }
    if (value & !combined_value) != 0 {
        return false;
    }
    if value > combined_value {
        return false;
    }
    true
}

/// The greatest permission value that the descriptor describes: the bitwise
/// OR of all its values, `0` for an empty descriptor.
pub fn get_max_hex_value_descriptor(descriptor: &CapabilityDescriptor) -> (mask: CapilityHexValue)
    ensures
        mask == max_value(descriptor@),
{
    let mut mask: CapilityHexValue = 0;
    let count = descriptor.len();
    let mut index: usize = 0;
    proof {
        descriptor.lemma_first_entries_start();
        lemma_empty_descriptor();
    }
    while index < count
        invariant
            index <= count,
            count == descriptor@.len(),
            descriptor.first_entries(count as int) == descriptor@,
            mask == max_value(descriptor.first_entries(index as int)),
        decreases count - index,
    {
        if let Some((name, unit_value)) = descriptor.entry_at(index) {
            proof {
                lemma_insert_new_name(descriptor.first_entries(index as int), name@, unit_value);
            }
            mask = mask | unit_value;
        }
        index += 1;
    }
    mask
}

/// The arithmetic sum of all values of the descriptor, `0` for an empty
/// descriptor. The sum wraps around on overflow.
pub fn get_sum_hex_value_descriptor(descriptor: &CapabilityDescriptor) -> (sum: CapilityHexValue)
    ensures
        sum == sum_value(descriptor@),
{
    let mut sum: CapilityHexValue = 0;
    let count = descriptor.len();
    let mut index: usize = 0;
    proof {
        descriptor.lemma_first_entries_start();
        lemma_empty_descriptor();
    }
    while index < count
        invariant
            index <= count,
            count == descriptor@.len(),
            descriptor.first_entries(count as int) == descriptor@,
            sum == sum_value(descriptor.first_entries(index as int)),
        decreases count - index,
    {
        if let Some((name, unit_value)) = descriptor.entry_at(index) {
            proof {
                lemma_insert_new_name(descriptor.first_entries(index as int), name@, unit_value);
            }
            sum = sum.wrapping_add(unit_value);
        }
        index += 1;
    }
    sum
}

/// Zero is valid under every descriptor that passes the integrity check and
/// whose values OR to a non-negative number. The OR is non-negative where no
/// value is negative (see [`lemma_max_value_sign`]).
pub proof fn lemma_zero_is_valid(d: Map<Seq<char>, i32>)
    requires
        is_intact(d),
        0 <= max_value(d),
    ensures
        is_valid(0, d),
{
    let mask = max_value(d);
    assert(0i32 & !mask == 0) by (bit_vector);
}

/// Where the values OR to a negative number, only negative values can be
/// valid: values are compared with the OR as signed integers. Zero is then
/// rejected, whether or not the descriptor passes the integrity check.
pub proof fn lemma_negative_mask_rejects_non_negative(value: i32, d: Map<Seq<char>, i32>)
    requires
        max_value(d) < 0,
        0 <= value,
    ensures
        !is_valid(value, d),
{
}

/// The OR of all values is itself valid under every descriptor that passes
/// the integrity check.
pub proof fn lemma_max_value_is_valid(d: Map<Seq<char>, i32>)
    requires
        is_intact(d),
    ensures
        is_valid(max_value(d), d),
{
    let mask = max_value(d);
    assert(mask & !mask == 0) by (bit_vector);
}

/// A value with a bit outside the OR of all descriptor values is rejected.
pub proof fn lemma_outside_bit_is_rejected(value: i32, d: Map<Seq<char>, i32>)
    requires
        value & !max_value(d) != 0,
    ensures
        !is_valid(value, d),
{
}

/// A descriptor that fails the integrity check rejects every value, zero
/// included.
pub proof fn lemma_corrupt_descriptor_rejects_all(d: Map<Seq<char>, i32>)
    requires
        !is_intact(d),
    ensures
        forall|value: i32| !is_valid(value, d),
{
}

} // verus!
