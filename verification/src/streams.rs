//! The random stream of each realization.
//!
//! The realizations of a batch share one seed. The realization with index
//! `index` draws from the ChaCha stream with eight rounds whose key is
//! expanded from the seed, whose stream number is `index`, and which stands
//! at its first word. Key, stream number and position fix all that a stream
//! will yield, so a realization can be repeated from its seed and index alone.

use rand::SeedableRng;
use rand_chacha::ChaCha8Rng;
use vstd::prelude::*;

verus! {

/// `rand_chacha::ChaCha8Rng`, the generator of a stream. It is carried
/// through as it is; nothing here looks inside.
#[verifier::external_type_specification]
#[verifier::external_body]
pub struct ExChaCha8Rng(ChaCha8Rng);

/// The 32-byte key that `SeedableRng::seed_from_u64` expands a 64-bit seed
/// to before it keys the generator. The expansion is a fixed function of the
/// seed; it is named here, not restated.
pub uninterp spec fn expanded_key(seed: u64) -> Seq<u8>;

/// The key of a stream: the 32 bytes that `ChaCha8Rng::get_seed` returns.
pub uninterp spec fn stream_key(rng: ChaCha8Rng) -> Seq<u8>;

/// The stream number of a stream: what `ChaCha8Rng::get_stream` returns.
pub uninterp spec fn stream_number(rng: ChaCha8Rng) -> u64;

/// The position of a stream, in 32-bit words from its start: what
/// `ChaCha8Rng::get_word_pos` returns.
pub uninterp spec fn stream_position(rng: ChaCha8Rng) -> u128;

/// Calls `ChaCha8Rng::seed_from_u64`, taken on trust: the generator that
/// comes back is keyed with the expansion of the seed, has the stream number
/// zero and stands at its first word.
#[verifier::external_body]
fn seeded(seed: u64) -> (rng: ChaCha8Rng)
    ensures
        stream_key(rng) == expanded_key(seed),
        stream_number(rng) == 0,
        stream_position(rng) == 0,
{
    ChaCha8Rng::seed_from_u64(seed)
}

/// Calls `ChaCha8Rng::set_stream`, taken on trust: the generator takes the
/// stream number given and keeps its key and its position.
#[verifier::external_body]
fn select_stream(rng: &mut ChaCha8Rng, number: u64)
    ensures
        stream_key(*final(rng)) == stream_key(*old(rng)),
        stream_number(*final(rng)) == number,
        stream_position(*final(rng)) == stream_position(*old(rng)),
{
    rng.set_stream(number)
}

/// Returns the random stream of the realization `index` of a batch that is
/// seeded with `seed`.
pub fn derive_stream(seed: u64, index: u64) -> (rng: ChaCha8Rng)
    ensures
        stream_key(rng) == expanded_key(seed),
        stream_number(rng) == index,
        stream_position(rng) == 0,
{
    let mut rng = seeded(seed);
    select_stream(&mut rng, index);
    rng
}

} // verus!
