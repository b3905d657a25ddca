//! The two per-word engines of a multiboot session: the bit-serial CRC-16
//! accumulator that checks the transfer, and the seeded linear generator that
//! obscures each payload word.

use vstd::prelude::*;

verus! {

/// Low 16 bits of a 32-bit word.
pub open spec fn lo16(w: u32) -> u16 {
    (w & 0xffff) as u16
}

/// One bit of the bit-serial CRC update: compare the low bits of the register
/// and the remaining input, shift the register down, and fold the polynomial
/// mask in when the compared bits differ.
pub open spec fn crc_step_bit(crc: u32, value: u32, mask: u32) -> u32 {
    if (crc ^ value) & 1 != 0 {
        (crc >> 1) ^ mask
    } else {
        crc >> 1
    }
}

/// The register after consuming the `n` lowest bits of `value`, least
/// significant first.
pub open spec fn crc_bits(crc: u32, value: u32, mask: u32, n: nat) -> u32
    decreases n,
{
    if n == 0 {
        crc
    } else {
        crc_bits(crc_step_bit(crc, value, mask), value >> 1, mask, (n - 1) as nat)
    }
}

/// The register after one full accumulation step: all 32 bits of `value` are
/// consumed, however many of them are semantically meaningful.
pub open spec fn crc_step_spec(crc: u32, value: u32, mask: u32) -> u32 {
    crc_bits(crc, value, mask, 32)
}

/// The register after accumulating every word of `words`, in order.
pub open spec fn crc_fold(crc: u32, mask: u32, words: Seq<u32>) -> u32
    decreases words.len(),
{
    if words.len() == 0 {
        crc
    } else {
        crc_step_spec(crc_fold(crc, mask, words.drop_last()), words.last(), mask)
    }
}

/// The finalize word injected once at digest time, derived from the two
/// negotiated byte parameters: `0xFFFF0000 | (finalB << 8) | finalA`.
pub open spec fn digest_step_spec(final_a: u16, final_b: u16) -> u32 {
    0xFFFF0000u32 | ((final_b as u32) << 8) | (final_a as u32)
}

/// The digest of a whole session: fold every transferred word into the freshly
/// seeded register, inject the finalize word, and keep the low 16 bits.
#[verifier::opaque]
pub open spec fn digest_of(final_a: u16, final_b: u16, words: Seq<u32>) -> u16 {
    lo16(crc_step_spec(crc_fold(0xc387, 0xc37b, words), digest_step_spec(final_a, final_b), 0xc37b))
}

/// Bit-serial CRC-16 accumulator with the protocol's seeding and finalize
/// step. Created once per session after the key exchange; every transferred
/// word is folded in via `step`, and `digest` is its terminal operation.
pub struct Crc {
    crc: u32,
    digest_step: u32,
    mask: u32,
}

impl Crc {
    /// The current shift register (16 significant bits held in a 32-bit word).
    pub closed spec fn register(&self) -> u32 {
        self.crc
    }

    /// The finalize word that `digest` injects.
    pub closed spec fn finalize_step(&self) -> u32 {
        self.digest_step
    }

    /// The polynomial mask of the CRC variant.
    pub closed spec fn poly_mask(&self) -> u32 {
        self.mask
    }

    pub fn new_normal(hh: u16, rr: u16) -> (r: Self)
        ensures
            r.register() == 0xc387u32,
            r.poly_mask() == 0xc37bu32,
            r.finalize_step() == digest_step_spec(hh, rr),
    {
        Crc { digest_step: Self::get_digest_step(hh, rr), mask: 0xc37b, crc: 0xc387 }
    }

    fn get_digest_step(final_a: u16, final_b: u16) -> (r: u32)
        ensures
            r == digest_step_spec(final_a, final_b),
    {
        0xFFFF0000 | ((final_b as u32) << 8) | (final_a as u32)
    }

    /// Fold one 32-bit word into the register, least-significant bit first.
    pub fn step(&mut self, value: u32)
        ensures
            final(self).register() == crc_step_spec(
                old(self).register(),
                value,
                old(self).poly_mask(),
            ),
            final(self).finalize_step() == old(self).finalize_step(),
            final(self).poly_mask() == old(self).poly_mask(),
    {
        let mut value = value;
        let ghost crc0 = self.crc;
        let ghost val0 = value;
        let ghost m0 = self.mask;
        let ghost ds0 = self.digest_step;
        let mut k: u32 = 0;
        while k < 32
            invariant
                k <= 32,
                self.mask == m0,
                self.digest_step == ds0,
                crc_bits(self.crc, value, m0, (32 - k) as nat) == crc_bits(crc0, val0, m0, 32),
            decreases 32 - k,
        {
            proof {
                assert(crc_bits(self.crc, value, m0, (32 - k) as nat) == crc_bits(
                    crc_step_bit(self.crc, value, m0),
                    value >> 1u32,
                    m0,
                    (31 - k) as nat,
                ));
            }
            let bit = (self.crc ^ value) & 1;
            self.crc = self.crc >> 1;
            if bit != 0 {
                self.crc = self.crc ^ self.mask;
            }
            value = value >> 1;
            k = k + 1;
        }
    }

    /// Terminal operation: inject the finalize word and return the low 16 bits
    /// of the register.
    pub fn digest(&mut self) -> (r: u16)
        ensures
            final(self).register() == crc_step_spec(
                old(self).register(),
                old(self).finalize_step(),
                old(self).poly_mask(),
            ),
            final(self).finalize_step() == old(self).finalize_step(),
            final(self).poly_mask() == old(self).poly_mask(),
            r == lo16(final(self).register()),
    {
        let ds = self.digest_step;
        self.step(ds);
        let c = self.crc;
        proof {
            assert((c & 0xffff) < 0x10000) by (bit_vector);
        }
        (c & 0xffff) as u16
    }
}

/// Law: the accumulation step is a function of the register, the input word
/// and the polynomial mask alone, so two engine instances whose registers and
/// masks agree step the same value to identical registers; there is no hidden
/// external state.
pub proof fn lemma_step_no_hidden_state(a: Crc, b: Crc, value: u32)
    requires
        a.register() == b.register(),
        a.poly_mask() == b.poly_mask(),
    ensures
        crc_step_spec(a.register(), value, a.poly_mask()) == crc_step_spec(
            b.register(),
            value,
            b.poly_mask(),
        ),
{
}

/// Law: the digest is a function of the finalize parameters and the sequence
/// of accumulated words alone, so two engine instances that accumulated the
/// same words from the same seeding digest to the same value, reproducibly.
pub proof fn lemma_digest_deterministic(final_a: u16, final_b: u16, words: Seq<u32>, a: Crc, b: Crc)
    requires
        a.register() == crc_fold(0xc387, 0xc37b, words),
        b.register() == crc_fold(0xc387, 0xc37b, words),
        a.poly_mask() == 0xc37bu32,
        b.poly_mask() == 0xc37bu32,
        a.finalize_step() == digest_step_spec(final_a, final_b),
        b.finalize_step() == digest_step_spec(final_a, final_b),
    ensures
        lo16(crc_step_spec(a.register(), a.finalize_step(), a.poly_mask())) == digest_of(
            final_a,
            final_b,
            words,
        ),
        lo16(crc_step_spec(b.register(), b.finalize_step(), b.poly_mask())) == digest_of(
            final_a,
            final_b,
            words,
        ),
{
    reveal(digest_of);
}

/// The seed recurrence: a multiply-and-increment step, wrapping at 32 bits.
pub open spec fn enc_next_seed(seed: u32) -> u32 {
    vstd::wrapping::u32_specs::wrapping_add(
        vstd::wrapping::u32_specs::wrapping_mul(seed, 0x6F646573),
        1,
    )
}

/// The seed after `n` generator steps.
pub open spec fn seed_fold(seed: u32, n: nat) -> u32
    decreases n,
{
    if n == 0 {
        seed
    } else {
        enc_next_seed(seed_fold(seed, (n - 1) as nat))
    }
}

/// The keystream output for input `value` at byte index `i`, taken from a
/// generator whose seed stood at `seed` before the step.
pub open spec fn enc_word(seed: u32, value: u32, i: u32, mask: u32) -> u32 {
    enc_next_seed(seed) ^ value ^ vstd::wrapping::u32_specs::wrapping_sub(0xFE000000u32, i) ^ mask
}

/// Seeded linear generator producing one 32-bit keystream word per transferred
/// word. The seed evolves once per call, so calls must come strictly in
/// transfer order.
pub struct EncryptState {
    seed: u32,
    mask: u32,
}

impl EncryptState {
    /// The running 32-bit seed.
    pub closed spec fn seed(&self) -> u32 {
        self.seed
    }

    /// The fixed XOR constant.
    pub closed spec fn xor_mask(&self) -> u32 {
        self.mask
    }

    pub fn new_normal(seed: u32) -> (r: Self)
        ensures
            r.seed() == seed,
            r.xor_mask() == 0x43202F2Fu32,
    {
        EncryptState { seed, mask: 0x43202F2F }
    }

    /// Advance the seed and return the obscured word for byte index `i`.
    pub fn step(&mut self, value: u32, i: u32) -> (r: u32)
        ensures
            final(self).seed() == enc_next_seed(old(self).seed()),
            final(self).xor_mask() == old(self).xor_mask(),
            r == enc_word(old(self).seed(), value, i, old(self).xor_mask()),
    {
        self.seed = self.seed.wrapping_mul(0x6F646573).wrapping_add(1);
        self.seed ^ value ^ 0xFE000000u32.wrapping_sub(i) ^ self.mask
    }
}

/// Law: a word obscured by one generator is recovered by a second generator
/// that stands at the same seed, that is, one constructed from the same value
/// and stepped through the same number of prior calls. The hypothesis is the
/// shared seed: the state is sequence-dependent, not addressable by the index
/// alone.
pub proof fn lemma_keystream_roundtrip(seed: u32, value: u32, i: u32, mask: u32)
    ensures
        enc_word(seed, enc_word(seed, value, i, mask), i, mask) == value,
{
    let ns = enc_next_seed(seed);
    let c = vstd::wrapping::u32_specs::wrapping_sub(0xFE000000u32, i);
    assert(ns ^ (ns ^ value ^ c ^ mask) ^ c ^ mask == value) by (bit_vector);
}

} // verus!

