//! Comparison of capability names.

use vstd::prelude::*;
use vstd::string::StringSliceAdditionalSpecFns;
use vstd::utf8::encode_utf8_decode_utf8;

verus! {

/// Tells whether two string slices hold the same text.
///
/// The slices are compared byte by byte. Two texts have the same UTF-8
/// encoding exactly when they are the same sequence of characters, so the
/// answer is stated over the views.
pub fn same_text(left: &str, right: &str) -> (same: bool)
    ensures
        same == (left@ == right@),
{
    let left_bytes = left.as_bytes();
    let right_bytes = right.as_bytes();
    proof {
        encode_utf8_decode_utf8(left@);
        encode_utf8_decode_utf8(right@);
    }
    if left_bytes.len() != right_bytes.len() {
        return false;
    }
    let count = left_bytes.len();
    let mut index: usize = 0;
    while index < count
        invariant
            index <= count,
            count == left_bytes@.len(),
            count == right_bytes@.len(),
            left_bytes@ == left.spec_bytes(),
            right_bytes@ == right.spec_bytes(),
            forall|at: int| 0 <= at < index ==> left_bytes@[at] == right_bytes@[at],
        decreases count - index,
    {
        if left_bytes[index] != right_bytes[index] {
            return false;
        }
        index += 1;
    }
    assert(left_bytes@ =~= right_bytes@);
    true
}

} // verus!
