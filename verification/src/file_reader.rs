//! Bulk record loading and the random-data generator's record maker.
//!
//! The loader reads every parsable value out of a text and silently skips
//! tokens that fail to parse.  The generator draws uniform 32-bit values
//! and renders them in record form, one bounded chunk at a time so peak
//! memory stays capped however many records are requested.

use crate::records::{lemma_render_roundtrip, parse_values, render_spec, render_values, values_of};
use rand::distributions::Distribution;
use vstd::prelude::*;
use vstd::string::StringSliceAdditionalSpecFns;

verus! {

/// Average printed size of one record, used to estimate a request's byte
/// volume.
pub const AVERAGE_BYTES_PER_NUMBER: usize = 12;

/// Byte budget of one generation chunk.
pub const CHUNK_SIZE_IN_BYTES: usize = 500000000;

/// Reads every parsable whitespace-delimited value out of the text, in
/// order; tokens that fail to parse are silently skipped.
pub fn read_from_string(data: &str) -> (values: Vec<u32>)
    ensures
        values@ == values_of(data.spec_bytes()),
{
    parse_values(data.as_bytes())
}

/// Relies on rand's `Uniform::new(low, high)` together with
/// `sample_iter` over the thread-local generator: the distribution is
/// over the half-open range `[low, high)`, so every drawn value is
/// strictly below `u32::MAX`; which values come back depends on the
/// generator's state, so nothing more is promised of them.
#[verifier::external_body]
fn sample_uniform_u32s(count: usize) -> (samples: Vec<u32>)
    ensures
        samples@.len() == count,
        forall|i: int| 0 <= i < samples@.len() ==> #[trigger] samples@[i] < u32::MAX,
{
    rand::distributions::Uniform::new(u32::MIN, u32::MAX).sample_iter(
        &mut rand::thread_rng(),
    ).take(count).collect()
}

/// One generator chunk: `count` freshly drawn values in record form,
/// each strictly below `u32::MAX`.
pub fn random_numbers_text(count: usize) -> (text: Vec<u8>)
    ensures
        values_of(text@).len() == count,
        forall|i: int| 0 <= i < values_of(text@).len() ==> #[trigger] values_of(text@)[i]
            < u32::MAX,
        text@ == render_spec(values_of(text@)),
{
    let samples = sample_uniform_u32s(count);
    let text = render_values(samples.as_slice());
    proof {
        lemma_render_roundtrip(samples@);
    }
    text
}

/// Splits a generation request into bounded chunks: the estimated byte
/// volume is divided into chunks of at most `CHUNK_SIZE_IN_BYTES`, and
/// the remainder is spread one record at a time over the first chunks,
/// so the chunk counts add up to exactly the request.
pub fn chunk_plan(numbers_count: usize) -> (plan: (usize, usize, usize))
    requires
        numbers_count * AVERAGE_BYTES_PER_NUMBER <= usize::MAX,
    ensures
        plan.0 == if numbers_count as int * AVERAGE_BYTES_PER_NUMBER as int
            / CHUNK_SIZE_IN_BYTES as int > 1 {
            numbers_count as int * AVERAGE_BYTES_PER_NUMBER as int / CHUNK_SIZE_IN_BYTES as int
        } else {
            1int
        },
        plan.1 == numbers_count as int / plan.0 as int,
        plan.2 == numbers_count as int % plan.0 as int,
        plan.2 < plan.0,
        plan.0 * plan.1 + plan.2 == numbers_count,
{
    let estimated = numbers_count * AVERAGE_BYTES_PER_NUMBER;
    let chunks = estimated / CHUNK_SIZE_IN_BYTES;
    let iters = if chunks > 1 {
        chunks
    } else {
        1
    };
    let base = numbers_count / iters;
    let rem = numbers_count % iters;
    proof {
        vstd::arithmetic::div_mod::lemma_fundamental_div_mod(numbers_count as int, iters as int);
        vstd::arithmetic::div_mod::lemma_mod_bound(numbers_count as int, iters as int);
    }
    (iters, base, rem)
}

} // verus!
