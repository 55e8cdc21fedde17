//! Conversion between separate left/right channels and interleaved stereo.
//!
//! Samples are carried as the bit patterns of 32-bit floats: this layer moves
//! them and never looks at their value.

use vstd::prelude::*;

verus! {

/// The interleaved form of two channels: `left[0], right[0], left[1], ...`.
pub open spec fn interleave_seq(left: Seq<u32>, right: Seq<u32>) -> Seq<u32>
    recommends
        left.len() == right.len(),
{
    Seq::new(2 * left.len(), |k: int| if k % 2 == 0 { left[k / 2] } else { right[k / 2] })
}

/// The samples at even positions of an interleaved sequence.
pub open spec fn left_of(interleaved: Seq<u32>) -> Seq<u32> {
    Seq::new(interleaved.len() / 2, |i: int| interleaved[2 * i])
}

/// The samples at odd positions of an interleaved sequence.
pub open spec fn right_of(interleaved: Seq<u32>) -> Seq<u32> {
    Seq::new(interleaved.len() / 2, |i: int| interleaved[2 * i + 1])
}

/// Writes `left` and `right` into `output` alternately, left first.
pub fn interleave(left: &[u32], right: &[u32], output: &mut [u32])
    requires
        right@.len() == left@.len(),
        old(output)@.len() == 2 * left@.len(),
    ensures
        final(output)@ == interleave_seq(left@, right@),
{
    let num_samples = left.len();
    let total = output.len();
    let mut i: usize = 0;
    while i < num_samples
        invariant
            num_samples == left@.len(),
            right@.len() == num_samples,
            output@.len() == 2 * num_samples,
            total == 2 * num_samples,
            i <= num_samples,
            forall|k: int| 0 <= k < 2 * i ==> #[trigger] output@[k] == (if k % 2 == 0 {
                left@[k / 2]
            } else {
                right@[k / 2]
            }),
        decreases num_samples - i,
    {
        output[2 * i] = left[i];
        output[2 * i + 1] = right[i];
        i = i + 1;
    }
    assert(output@ =~= interleave_seq(left@, right@));
}

/// Splits `input` into its even positions (`left`) and odd positions (`right`).
pub fn deinterleave(input: &[u32], left: &mut [u32], right: &mut [u32])
    requires
        old(right)@.len() == old(left)@.len(),
        input@.len() == 2 * old(left)@.len(),
    ensures
        final(left)@ == left_of(input@),
        final(right)@ == right_of(input@),
{
    let num_samples = left.len();
    let total = input.len();
    let mut i: usize = 0;
    while i < num_samples
        invariant
            num_samples == left@.len(),
            right@.len() == num_samples,
            input@.len() == 2 * num_samples,
            total == 2 * num_samples,
            i <= num_samples,
            forall|k: int| 0 <= k < i ==> #[trigger] left@[k] == input@[2 * k],
            forall|k: int| 0 <= k < i ==> #[trigger] right@[k] == input@[2 * k + 1],
        decreases num_samples - i,
    {
        left[i] = input[2 * i];
        right[i] = input[2 * i + 1];
        i = i + 1;
    }
    assert(left@ =~= left_of(input@));
    assert(right@ =~= right_of(input@));
}

/// Splitting an interleaved pair of channels gives back the two channels.
pub proof fn lemma_interleave_round_trip(left: Seq<u32>, right: Seq<u32>)
    requires
        left.len() == right.len(),
    ensures
        left_of(interleave_seq(left, right)) == left,
        right_of(interleave_seq(left, right)) == right,
{
    let s = interleave_seq(left, right);
    assert forall|i: int| 0 <= i < left.len() implies #[trigger] s[2 * i] == left[i] by {
        assert((2 * i) % 2 == 0 && (2 * i) / 2 == i);
    }
    assert forall|i: int| 0 <= i < left.len() implies #[trigger] s[2 * i + 1] == right[i] by {
        assert((2 * i + 1) % 2 == 1 && (2 * i + 1) / 2 == i);
    }
    assert(left_of(s) =~= left);
    assert(right_of(s) =~= right);
}

} // verus!
