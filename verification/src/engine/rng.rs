//! The seeded random stream of a game, and fresh seeds.
//!
//! The stream is the ChaCha8 keystream of the `rand_chacha` crate. A [`GameRng`]
//! holds what determines the rest of that stream: the 32-byte seed and the
//! position in the stream, counted in 32-bit words.

use rand::Rng;
use rand::RngCore;
use rand::SeedableRng;
use rand_chacha::ChaCha8Rng;
use vstd::prelude::*;
use vstd::string::StringSliceAdditionalSpecFns;
use vstd::utf8::encode_utf8;

verus! {

/// The length of a seed in bytes.
pub const SEED_BYTES: usize = 32;

/// The length of the stream in 32-bit words, after which it starts over: 2^68.
pub const STREAM_WORDS: u128 = 0x10_0000_0000_0000_0000;

/// The number of characters a seed character is taken from: ten digits and 26 letters.
pub const SEED_ALPHABET: u8 = 36;

/// The length of a generated seed in characters.
pub const SEED_CHARS: usize = 8;

/// A position in the random stream of a seed.
#[derive(Debug, Clone, Copy)]
pub struct GameRng {
    pub seed: [u8; 32],
    pub word_pos: u128,
}

/// The mathematical value of a [`GameRng`].
pub struct GameRngView {
    pub seed: Seq<u8>,
    pub word_pos: int,
}

impl View for GameRng {
    type V = GameRngView;

    open spec fn view(&self) -> GameRngView {
        GameRngView { seed: self.seed@, word_pos: self.word_pos as int }
    }
}

/// The 64 bits that the ChaCha8 stream of `seed` holds at `word_pos`.
pub uninterp spec fn chacha8_u64(seed: Seq<u8>, word_pos: int) -> u64;

/// The position after one 64-bit draw at `word_pos`: two words on, starting
/// over at the end of the stream.
pub open spec fn next_word_pos(word_pos: int) -> int {
    (word_pos % 0x10_0000_0000_0000_0000 + 2) % 0x10_0000_0000_0000_0000
}

/// The value that the next draw from `rng` gives.
pub open spec fn next_value(rng: GameRngView) -> u64 {
    chacha8_u64(rng.seed, rng.word_pos)
}

/// The stream after one draw from `rng`.
pub open spec fn advanced(rng: GameRngView) -> GameRngView {
    GameRngView { seed: rng.seed, word_pos: next_word_pos(rng.word_pos) }
}

/// The seed of a seed string: its first 32 bytes, filled up with zeros.
pub open spec fn seed_of(bytes: Seq<u8>) -> Seq<u8> {
    Seq::new(
        32,
        |i: int|
            if i < bytes.len() {
                bytes[i]
            } else {
                0u8
            },
    )
}

/// `ChaCha8Rng::from_seed`, `ChaCha8Rng::set_word_pos` and `RngCore::next_u64`
/// of `rand_chacha`, in this order: the generator of the seed is moved to the
/// word position and gives its next 64 bits. The result is a function of the
/// seed and the position alone, which is all that is claimed of it.
#[verifier::external_body]
fn chacha8_draw(seed: &[u8; 32], word_pos: u128) -> (r: u64)
    ensures
        r == chacha8_u64(seed@, word_pos as int),
{
    let mut stream = ChaCha8Rng::from_seed(*seed);
    stream.set_word_pos(word_pos);
    stream.next_u64()
}

impl GameRng {
    /// The next 64 bits of the stream. The stream moves on by one draw.
    pub fn next_u64(&mut self) -> (r: u64)
        ensures
            r == next_value(old(self)@),
            final(self)@ == advanced(old(self)@),
    {
        let r = chacha8_draw(&self.seed, self.word_pos);
        self.word_pos = (self.word_pos % STREAM_WORDS + 2) % STREAM_WORDS;
        r
    }
}

/// The stream of a seed string, at its start. The seed is the string's first 32
/// bytes in UTF-8, filled up with zeros; what follows them is not read.
pub fn create_rng(seed_str: &str) -> (rng: GameRng)
    ensures
        rng@.seed == seed_of(seed_str.spec_bytes()),
        rng@.word_pos == 0,
{
    let bytes = seed_str.as_bytes();
    let mut seed = [0u8; 32];
    let mut i: usize = 0;
    while i < SEED_BYTES && i < bytes.len()
        invariant
            i <= 32,
            i <= bytes@.len(),
            forall|j: int| 0 <= j < i ==> seed@[j] == bytes@[j],
            forall|j: int| i <= j < 32 ==> seed@[j] == 0u8,
        decreases 32 - i,
    {
        seed[i] = bytes[i];
        i += 1;
    }
    assert(seed@ =~= seed_of(bytes@));
    GameRng { seed, word_pos: 0 }
}

/// `rand::thread_rng` and `Rng::gen_range` of `rand`: a number below `bound`
/// from the thread's generator, which the system seeds. Which number comes is
/// not determined; only its range is.
#[verifier::external_body]
fn random_below(bound: u8) -> (r: u8)
    requires
        bound > 0,
    ensures
        r < bound,
{
    rand::thread_rng().gen_range(0..bound)
}

/// The seed character with the given number: the digits, then the capital letters.
pub open spec fn seed_char_spec(index: int) -> char {
    if index < 10 {
        ((48 + index) as u8) as char
    } else {
        ((55 + index) as u8) as char
    }
}

/// Whether `c` is a character of a generated seed: a digit or a capital letter.
pub open spec fn is_seed_char(c: char) -> bool {
    exists|k: int| 0 <= k < 36 && c == seed_char_spec(k)
}

/// The seed character with the given number: `0` to `9`, then `A` to `Z`.
pub fn seed_char(index: u8) -> (c: char)
    requires
        index < 36,
    ensures
        c == seed_char_spec(index as int),
{
    if index < 10 {
        (48u8 + index) as char
    } else {
        (55u8 + index) as char
    }
}

/// A fresh seed: eight characters, each a digit or a capital letter, chosen at random.
pub fn generate_seed() -> (seed: String)
    ensures
        seed@.len() == 8,
        forall|i: int| 0 <= i < 8 ==> is_seed_char(#[trigger] seed@[i]),
{
    let mut seed = String::new();
    let mut i: usize = 0;
    while i < SEED_CHARS
        invariant
            i <= 8,
            seed@.len() == i,
            forall|j: int| 0 <= j < i ==> is_seed_char(#[trigger] seed@[j]),
        decreases 8 - i,
    {
        let index = random_below(SEED_ALPHABET);
        let c = seed_char(index);
        seed.push(c);
        i += 1;
    }
    seed
}

/// The stream after `n` draws from `rng`.
pub open spec fn after_draws(rng: GameRngView, n: nat) -> GameRngView
    decreases n,
{
    if n == 0 {
        rng
    } else {
        advanced(after_draws(rng, (n - 1) as nat))
    }
}

/// The values of the first `n` draws from `rng`, in order.
pub open spec fn stream_values(rng: GameRngView, n: nat) -> Seq<u64> {
    Seq::new(n, |k: int| next_value(after_draws(rng, k as nat)))
}

/// Same-seed determinism: two streams made from the same seed string, and
/// driven through the same number of draws, give the same values in the same
/// order and are at the same position afterwards.
pub proof fn lemma_same_seed_same_stream(a: GameRngView, b: GameRngView, text: Seq<char>, n: nat)
    requires
        a.seed == seed_of(encode_utf8(text)),
        b.seed == seed_of(encode_utf8(text)),
        a.word_pos == 0,
        b.word_pos == 0,
    ensures
        stream_values(a, n) == stream_values(b, n),
        after_draws(a, n) == after_draws(b, n),
{
    assert(a == b);
}

} // verus!
