//! The multiboot session state machine: readiness probe, header transfer, key
//! exchange, encrypted payload transfer and checksum validation, in strict
//! order with fail-fast error semantics. Every contract speaks about the
//! transport's exchange log, so the behaviour of a session is pinned down as a
//! function of the peer's responses.

use crate::crc::{
    crc_fold, digest_of, digest_step_spec, enc_word, lo16, seed_fold, Crc, EncryptState,
};
use crate::rom::{aligned_spec, Rom};
use crate::transport::{hi16, sent_words, GbaSpi};
use vstd::prelude::*;
use vstd::slice::slice_index_get;

verus! {

/// The terminal failures of a session; none is retried internally.
#[derive(Clone, Copy, Debug, PartialEq, Eq, Structural)]
pub enum MultibootError {
    /// The key-exchange token did not carry the expected marker byte; the
    /// session was aborted before any payload word was sent.
    FailedHandshake,
    /// A payload word's acknowledgment did not match the expected byte
    /// offset; the session was aborted mid-transfer with no resend.
    TransmissionError,
    /// The peer echoed a checksum other than the locally computed digest; the
    /// transfer completed mechanically but is considered corrupted.
    InvalidChecksum,
    /// The peer never signalled readiness for the checksum within the given
    /// number of polls.
    ChecksumTimeout,
    /// A transport exchange failed; the failure is surfaced rather than
    /// conflated with a response of zero.
    TransportFailure,
}

/// Low byte of a 16-bit response.
pub open spec fn lo8(w: u16) -> u16 {
    w & 0xff
}

/// High byte of a 16-bit response.
pub open spec fn hi8(w: u16) -> u16 {
    w >> 8
}

/// The configuration byte exchanged during key negotiation: `0x81` with the
/// palette, direction and speed bits folded in.
pub open spec fn pp_spec(color: u16, dir: u16, speed: u16) -> u16 {
    (0x81 + color * 0x10 + dir * 0x8 + speed * 0x2) as u16
}

/// The `j`th 16-bit header word as sent: little-endian pair of header bytes.
pub open spec fn header_word(bytes: Seq<u8>, j: int) -> u16 {
    (bytes[2 * j] as u16) | ((bytes[2 * j + 1] as u16) << 8)
}

/// The 98 words of the header phase: the start command, the 96 header words,
/// and the end command.
#[verifier::opaque]
pub open spec fn header_words(bytes: Seq<u8>) -> Seq<u32> {
    seq![0x6100u32] + Seq::new(96, |j: int| header_word(bytes, j) as u32) + seq![0x6200u32]
}

/// The first `finalA` byte carried by the token, adjusted by the protocol's
/// fixed offset.
pub open spec fn adjusted_final_a(token: u16) -> u16 {
    (((token & 0xff) + 0xf) as u16) & 0xff
}

/// The keystream seed derived from the raw token byte and the configuration
/// byte.
pub open spec fn derived_seed(token: u16, pp: u16) -> u32 {
    0xFFFF0000u32 | (((token & 0xff) << 8) as u32) | (pp as u32)
}

/// The 16-bit length parameter of the key exchange: the payload word count
/// minus the protocol's fixed offset, wrapping at 32 bits.
pub open spec fn len_param(aligned: u32) -> u16
    recommends
        aligned >= 0xc0,
{
    lo16(vstd::wrapping::u32_specs::wrapping_sub(((aligned - 0xc0) as u32) / 4, 0x34))
}

/// The three sends of the key exchange up to the token: the re-arm probe and
/// the two configuration commands, the second of whose responses carries the
/// encryption token.
pub open spec fn key_probe_sends(pp: u16, l: Seq<(u32, u32)>, n0: int) -> bool {
    &&& l[n0].0 == 0x6202u32
    &&& l[n0 + 1].0 == (0x6300 | pp) as u32
    &&& l[n0 + 2].0 == (0x6300 | pp) as u32
}

/// The `i`th 32-bit payload word, read little-endian from the payload bytes.
pub open spec fn payload_word(game: Seq<u8>, i: int) -> u32 {
    (game[4 * i] as u32) | ((game[4 * i + 1] as u32) << 8) | ((game[4 * i + 2] as u32) << 16) | (
    (game[4 * i + 3] as u32) << 24)
}

/// All 32-bit payload words, in transfer order.
pub open spec fn payload_words(game: Seq<u8>) -> Seq<u32> {
    Seq::new(game.len() / 4, |i: int| payload_word(game, i))
}

/// A payload acknowledgment is the low 16 bits of the word's byte offset,
/// carried in the high 16 bits of the response.
pub open spec fn ack_matches(resp: u32, index: u32) -> bool {
    resp >> 16 == index & 0xffff
}

/// The byte offset of payload word `j`: the words start right after the
/// 192-byte header.
pub open spec fn word_off(j: int) -> u32 {
    (0xc0 + 4 * j) as u32
}

/// The word the engine puts on the wire for payload word `j`: the plaintext
/// word obscured by a generator that was seeded with `s0` and has made `j`
/// prior steps.
#[verifier::opaque]
pub open spec fn cipher_word_at(s0: u32, em: u32, words: Seq<u32>, j: int) -> u32 {
    enc_word(seed_fold(s0, j as nat), words[j], word_off(j), em)
}

proof fn lemma_prefix_indexes(l_old: Seq<(u32, u32)>, l_new: Seq<(u32, u32)>)
    requires
        l_old.len() <= l_new.len(),
        l_new.subrange(0, l_old.len() as int) == l_old,
    ensures
        forall|t: int| 0 <= t < l_old.len() ==> l_new[t] == l_old[t],
{
    assert forall|t: int| 0 <= t < l_old.len() implies l_new[t] == l_old[t] by {
        assert(l_new.subrange(0, l_old.len() as int)[t] == l_new[t]);
    }
}

/// Once the header phase has completed, the 98 entries it appended stay in
/// place under any later growth of the log: their sent words are exactly the
/// header words.
proof fn lemma_header_segment(
    log0: Seq<(u32, u32)>,
    l1: Seq<(u32, u32)>,
    l: Seq<(u32, u32)>,
    hw: Seq<u32>,
)
    requires
        l1.len() == log0.len() + 98,
        sent_words(l1) == sent_words(log0) + hw,
        l.len() >= l1.len(),
        forall|t: int| 0 <= t < l1.len() ==> l[t] == l1[t],
    ensures
        sent_words(l.subrange(log0.len() as int, log0.len() + 98 as int)) == hw,
{
    let n0 = log0.len() as int;
    let hseg = l.subrange(n0, n0 + 98);
    assert(sent_words(l1).len() == n0 + 98);
    assert(sent_words(log0).len() == n0);
    assert(hw.len() == 98);
    assert forall|j: int| 0 <= j < 98 implies #[trigger] l1[n0 + j].0 == hw[j] by {
        assert(sent_words(l1)[n0 + j] == l1[n0 + j].0);
        assert((sent_words(log0) + hw)[n0 + j] == hw[j]);
    }
    assert(forall|j: int| 0 <= j < 98 ==> #[trigger] hseg[j] == l1[n0 + j]);
    assert(forall|j: int| 0 <= j < 98 ==> #[trigger] sent_words(hseg)[j] == hseg[j].0);
    assert(sent_words(hseg) =~= hw);
}

proof fn lemma_push_preserves_prefix(l0: Seq<(u32, u32)>, l1: Seq<(u32, u32)>, e: (u32, u32))
    requires
        l0.len() <= l1.len(),
        l1.subrange(0, l0.len() as int) == l0,
    ensures
        l1.push(e).subrange(0, l0.len() as int) == l0,
{
    assert(l1.push(e).subrange(0, l0.len() as int) =~= l0);
}

/// A multiboot session over a caller-supplied ROM: the engine drives a
/// transport synchronously through the phases, holding the negotiated
/// configuration byte and the read-only ROM view.
pub struct Gba<'a> {
    rom: Rom<'a>,
    pp: u16,
}

impl<'a> Gba<'a> {
    /// The ROM bytes the session transfers.
    pub closed spec fn rom_view(&self) -> Seq<u8> {
        self.rom@
    }

    /// The negotiated configuration byte.
    pub closed spec fn pp_val(&self) -> u16 {
        self.pp
    }

    /// The ROM is long enough to hold the fixed header, and short enough for
    /// the 32-bit length arithmetic of the protocol.
    pub open spec fn rom_ok(&self) -> bool {
        0xc0 <= self.rom_view().len() <= u32::MAX
    }

    /// The ROM length rounded down to a 16-byte boundary.
    pub open spec fn aligned(&self) -> u32 {
        aligned_spec(self.rom_view().len() as u32)
    }

    /// The payload bytes: offset 192 up to the aligned length.
    pub open spec fn game_bytes(&self) -> Seq<u8> {
        self.rom_view().subrange(0xc0, self.aligned() as int)
    }

    /// A session with the deployment's fixed display configuration (all
    /// palette, direction and speed bits zero).
    pub fn new(rom: &'a [u8]) -> (r: Self)
        ensures
            r.rom_view() == rom@,
            r.pp_val() == 0x81u16,
    {
        Gba { rom: Rom::new(rom), pp: 0x81 }
    }

    /// A session with explicit palette, direction and speed bits.
    pub fn new_with_config(rom: &'a [u8], color: u16, dir: u16, speed: u16) -> (r: Self)
        requires
            color <= 7,
            dir <= 1,
            speed <= 3,
        ensures
            r.rom_view() == rom@,
            r.pp_val() == pp_spec(color, dir, speed),
    {
        Gba { rom: Rom::new(rom), pp: 0x81 + color * 0x10 + dir * 0x8 + speed * 0x2 }
    }

    /// Single idempotent readiness check: probe the peer once and report
    /// whether it answered the multiboot-ready word. The caller decides the
    /// polling cadence.
    pub fn is_ready<S: GbaSpi>(&self, spi: &mut S) -> (r: Result<bool, MultibootError>)
        ensures
            r matches Ok(b) ==> {
                &&& final(spi).log() == old(spi).log().push(
                    (0x6202u32, final(spi).log().last().1),
                )
                &&& (b <==> hi16(final(spi).log().last().1) == 0x7202)
            },
            old(spi).assured() >= 1 ==> r is Ok,
            r is Err ==> r == Err::<bool, MultibootError>(MultibootError::TransportFailure)
                && final(spi).log() == old(spi).log(),
    {
        match spi.send16(0x6202) {
            Ok(resp) => Ok(resp == 0x7202),
            Err(_) => Err(MultibootError::TransportFailure),
        }
    }

    /// Header phase: the start command, the 192 header bytes as 96
    /// little-endian 16-bit words, and the end command. No response is
    /// validated in this phase.
    pub fn send_header<S: GbaSpi>(&self, spi: &mut S) -> (r: Result<(), MultibootError>)
        requires
            self.rom_ok(),
        ensures
            old(spi).assured() >= 98 ==> r is Ok,
            r matches Ok(()) ==> {
                &&& final(spi).log().len() == old(spi).log().len() + 98
                &&& final(spi).log().subrange(0, old(spi).log().len() as int) == old(spi).log()
                &&& final(spi).assured() + 98 >= old(spi).assured()
                &&& sent_words(final(spi).log()) == sent_words(old(spi).log()) + header_words(
                    self.rom_view(),
                )
            },
            r is Err ==> {
                &&& r == Err::<(), MultibootError>(MultibootError::TransportFailure)
                &&& final(spi).log().len() < old(spi).log().len() + 98
                &&& final(spi).log().subrange(0, old(spi).log().len() as int) == old(spi).log()
                &&& sent_words(final(spi).log()) == sent_words(old(spi).log()) + header_words(
                    self.rom_view(),
                ).take(final(spi).log().len() - old(spi).log().len())
            },
    {
        let ghost log0 = spi.log();
        let ghost a0 = spi.assured();
        let ghost hw = header_words(self.rom_view());
        proof {
            reveal(header_words);
            assert(hw.len() == 98);
            assert(hw[0] == 0x6100u32);
        }
        match spi.send16(0x6100) {
            Ok(_) => {},
            Err(_) => {
                proof {
                    assert(spi.log().subrange(0, log0.len() as int) =~= log0);
                    assert(sent_words(spi.log()) =~= sent_words(log0) + hw.take(0));
                }
                return Err(MultibootError::TransportFailure);
            },
        }
        proof {
            assert(log0.subrange(0, log0.len() as int) =~= log0);
            lemma_push_preserves_prefix(log0, log0, (0x6100u32, spi.log().last().1));
            assert(sent_words(spi.log()) =~= sent_words(log0) + hw.take(1));
        }
        let header = self.rom.header();
        let mut j: usize = 0;
        while j < 96
            invariant
                j <= 96,
                self.rom_ok(),
                log0 == old(spi).log(),
                a0 == old(spi).assured(),
                spi.assured() + 1 + j >= a0,
                hw == header_words(self.rom_view()),
                header@ == self.rom_view().subrange(0, 0xc0),
                spi.log().len() == log0.len() + 1 + j,
                spi.log().subrange(0, log0.len() as int) == log0,
                sent_words(spi.log()) == sent_words(log0) + hw.take(1 + j as int),
            decreases 96 - j,
        {
            let b0 = *slice_index_get(header, 2 * j);
            let b1 = *slice_index_get(header, 2 * j + 1);
            let w: u16 = (b0 as u16) | ((b1 as u16) << 8);
            proof {
                reveal(header_words);
                assert(w == header_word(self.rom_view(), j as int));
                assert(hw[1 + j as int] == header_word(self.rom_view(), j as int) as u32);
            }
            let ghost log_pre = spi.log();
            match spi.send16(w) {
                Ok(_) => {},
                Err(_) => {
                    proof {
                        assert(spi.log().len() - log0.len() == 1 + j);
                    }
                    return Err(MultibootError::TransportFailure);
                },
            }
            proof {
                lemma_push_preserves_prefix(log0, log_pre, (w as u32, spi.log().last().1));
                assert(hw.take(2 + j as int) =~= hw.take(1 + j as int).push(hw[1 + j as int]));
                assert(sent_words(spi.log()) =~= (sent_words(log0) + hw.take(1 + j as int)).push(
                    w as u32,
                ));
                assert(sent_words(log0) + hw.take(2 + j as int) =~= (sent_words(log0) + hw.take(
                    1 + j as int,
                )).push(hw[1 + j as int]));
            }
            j = j + 1;
        }
        let ghost log_pre = spi.log();
        match spi.send16(0x6200) {
            Ok(_) => {},
            Err(_) => {
                proof {
                    assert(spi.log().len() - log0.len() == 97);
                }
                return Err(MultibootError::TransportFailure);
            },
        }
        proof {
            reveal(header_words);
            lemma_push_preserves_prefix(log0, log_pre, (0x6200u32, spi.log().last().1));
            assert(hw[97] == 0x6200u32);
            assert(hw.take(98) =~= hw.take(97).push(hw[97]));
            assert(sent_words(spi.log()) =~= (sent_words(log0) + hw.take(97)).push(0x6200u32));
            assert(sent_words(log0) + hw.take(98) =~= (sent_words(log0) + hw.take(97)).push(
                hw[97],
            ));
            assert(hw.take(98) =~= hw);
        }
        Ok(())
    }

    /// Key exchange: re-arm the peer, prime it with the configuration
    /// command, and read the encryption token from the second response. A
    /// token without the `0x73` marker byte fails the handshake before any
    /// payload word is sent. Otherwise the token's low byte seeds the
    /// keystream generator and, adjusted, becomes `finalA`; the response to
    /// the payload-length parameter carries `finalB`; the checksum engine and
    /// the keystream generator are built from those.
    pub fn get_keys<S: GbaSpi>(&self, spi: &mut S) -> (r: Result<
        (Crc, EncryptState),
        MultibootError,
    >)
        requires
            self.rom_ok(),
        ensures
            ({
                let l = final(spi).log();
                let n0 = old(spi).log().len() as int;
                let pp = self.pp_val();
                &&& (r matches Ok(engines) ==> {
                    let token = hi16(l[n0 + 2].1);
                    let fa = adjusted_final_a(token);
                    let fb = lo8(hi16(l[n0 + 4].1));
                    &&& l.len() == n0 + 5
                    &&& l.subrange(0, n0) == old(spi).log()
                    &&& key_probe_sends(pp, l, n0)
                    &&& hi8(token) == 0x73
                    &&& l[n0 + 3].0 == (0x6400 | fa) as u32
                    &&& l[n0 + 4].0 == len_param(self.aligned()) as u32
                    &&& engines.0.register() == 0xc387u32
                    &&& engines.0.poly_mask() == 0xc37bu32
                    &&& engines.0.finalize_step() == digest_step_spec(fa, fb)
                    &&& engines.1.seed() == derived_seed(token, pp)
                    &&& engines.1.xor_mask() == 0x43202F2Fu32
                })
                &&& (r == Err::<(Crc, EncryptState), MultibootError>(
                    MultibootError::FailedHandshake,
                ) ==> {
                    &&& l.len() == n0 + 3
                    &&& l.subrange(0, n0) == old(spi).log()
                    &&& key_probe_sends(pp, l, n0)
                    &&& hi8(hi16(l[n0 + 2].1)) != 0x73
                })
                &&& (old(spi).assured() >= 5 ==> !(r == Err::<(Crc, EncryptState),
                    MultibootError>(MultibootError::TransportFailure)))
                &&& (!(r == Err::<(Crc, EncryptState), MultibootError>(
                    MultibootError::TransportFailure,
                )) ==> final(spi).assured() + 5 >= old(spi).assured())
                &&& (r == Err::<(Crc, EncryptState), MultibootError>(
                    MultibootError::TransportFailure,
                ) ==> {
                    let m = l.len() - n0;
                    &&& 0 <= m < 5
                    &&& l.subrange(0, n0) == old(spi).log()
                    &&& (m >= 1 ==> l[n0].0 == 0x6202u32)
                    &&& (m >= 2 ==> l[n0 + 1].0 == (0x6300 | pp) as u32)
                    &&& (m >= 3 ==> l[n0 + 2].0 == (0x6300 | pp) as u32 && hi8(hi16(l[n0 + 2].1))
                        == 0x73)
                    &&& (m >= 4 ==> l[n0 + 3].0 == (0x6400 | adjusted_final_a(
                        hi16(l[n0 + 2].1),
                    )) as u32)
                })
                &&& (r is Err ==> r == Err::<(Crc, EncryptState), MultibootError>(
                    MultibootError::FailedHandshake,
                ) || r == Err::<(Crc, EncryptState), MultibootError>(
                    MultibootError::TransportFailure,
                ))
            }),
    {
        let ghost log0 = spi.log();
        let ghost a0 = spi.assured();
        let pp = self.pp;
        match spi.send16(0x6202) {
            Ok(_) => {},
            Err(_) => {
                proof {
                    assert(spi.log().subrange(0, log0.len() as int) =~= log0);
                }
                return Err(MultibootError::TransportFailure);
            },
        }
        match spi.send16(0x6300 | pp) {
            Ok(_) => {},
            Err(_) => {
                proof {
                    assert(spi.log().subrange(0, log0.len() as int) =~= log0);
                }
                return Err(MultibootError::TransportFailure);
            },
        }
        let token = match spi.send16(0x6300 | pp) {
            Ok(t) => t,
            Err(_) => {
                proof {
                    assert(spi.log().subrange(0, log0.len() as int) =~= log0);
                }
                return Err(MultibootError::TransportFailure);
            },
        };
        proof {
            assert(spi.log().subrange(0, log0.len() as int) =~= log0);
        }
        if token >> 8 != 0x73 {
            return Err(MultibootError::FailedHandshake);
        }
        let crc_final_a = token & 0xff;
        let seed: u32 = 0xFFFF0000 | ((crc_final_a << 8) as u32) | (pp as u32);
        proof {
            assert(token & 0xff <= 0xff) by (bit_vector);
        }
        let crc_final_a = (crc_final_a + 0xF) & 0xFF;
        match spi.send16(0x6400 | crc_final_a) {
            Ok(_) => {},
            Err(_) => {
                proof {
                    assert(spi.log().subrange(0, log0.len() as int) =~= log0);
                }
                return Err(MultibootError::TransportFailure);
            },
        }
        let aligned = self.rom.aligned_game_len();
        let lp32 = ((aligned - 0xc0) / 4).wrapping_sub(0x34);
        proof {
            assert(lp32 & 0xffff <= 0xffff) by (bit_vector);
        }
        let lp = (lp32 & 0xffff) as u16;
        let token2 = match spi.send16(lp) {
            Ok(t) => t,
            Err(_) => {
                proof {
                    assert(spi.log().subrange(0, log0.len() as int) =~= log0);
                }
                return Err(MultibootError::TransportFailure);
            },
        };
        let crc_final_b = token2 & 0xFF;
        proof {
            assert(spi.log().subrange(0, log0.len() as int) =~= log0);
        }
        let crc = Crc::new_normal(crc_final_a, crc_final_b);
        let enc = EncryptState::new_normal(seed);
        Ok((crc, enc))
    }

    /// Payload transfer: each 4-byte payload word is folded into the checksum
    /// in the clear, obscured by the keystream generator at its byte offset,
    /// and exchanged; the response must acknowledge the low 16 bits of that
    /// offset. The first mismatch aborts the session with no resend and no
    /// rollback of the checksum or keystream state.
    #[verifier::rlimit(100)]
    pub fn send_rom<S: GbaSpi>(
        &self,
        spi: &mut S,
        crc: &mut Crc,
        enc: &mut EncryptState,
    ) -> (r: Result<(), MultibootError>)
        requires
            self.rom_ok(),
        ensures
            ({
                let l = final(spi).log();
                let n0 = old(spi).log().len() as int;
                let words = payload_words(self.game_bytes());
                let nw = words.len() as int;
                let s0 = old(enc).seed();
                let em = old(enc).xor_mask();
                &&& final(crc).poly_mask() == old(crc).poly_mask()
                &&& final(crc).finalize_step() == old(crc).finalize_step()
                &&& final(enc).xor_mask() == em
                &&& (old(spi).assured() >= nw ==> !(r == Err::<(), MultibootError>(
                    MultibootError::TransportFailure,
                )))
                &&& (r matches Ok(()) ==> final(spi).assured() + nw >= old(spi).assured())
                &&& (r matches Ok(()) ==> {
                    &&& l.len() == n0 + nw
                    &&& l.subrange(0, n0) == old(spi).log()
                    &&& forall|j: int|
                        0 <= j < nw ==> #[trigger] l[n0 + j].0 == cipher_word_at(s0, em, words, j)
                    &&& forall|j: int|
                        0 <= j < nw ==> ack_matches(#[trigger] l[n0 + j].1, word_off(j))
                    &&& final(crc).register() == crc_fold(
                        old(crc).register(),
                        old(crc).poly_mask(),
                        words,
                    )
                    &&& final(enc).seed() == seed_fold(s0, nw as nat)
                })
                &&& (r == Err::<(), MultibootError>(MultibootError::TransmissionError) ==> {
                    let k = l.len() - n0 - 1;
                    &&& 0 <= k < nw
                    &&& l.subrange(0, n0) == old(spi).log()
                    &&& forall|j: int|
                        0 <= j <= k ==> #[trigger] l[n0 + j].0 == cipher_word_at(s0, em, words, j)
                    &&& forall|j: int|
                        0 <= j < k ==> ack_matches(#[trigger] l[n0 + j].1, word_off(j))
                    &&& !ack_matches(l[n0 + k].1, word_off(k))
                    &&& final(crc).register() == crc_fold(
                        old(crc).register(),
                        old(crc).poly_mask(),
                        words.take(k + 1),
                    )
                    &&& final(enc).seed() == seed_fold(s0, (k + 1) as nat)
                })
                &&& (r == Err::<(), MultibootError>(MultibootError::TransportFailure) ==> {
                    let n = l.len() - n0;
                    &&& 0 <= n < nw
                    &&& l.subrange(0, n0) == old(spi).log()
                    &&& forall|j: int|
                        0 <= j < n ==> #[trigger] l[n0 + j].0 == cipher_word_at(s0, em, words, j)
                    &&& forall|j: int|
                        0 <= j < n ==> ack_matches(#[trigger] l[n0 + j].1, word_off(j))
                    &&& final(crc).register() == crc_fold(
                        old(crc).register(),
                        old(crc).poly_mask(),
                        words.take(n + 1),
                    )
                    &&& final(enc).seed() == seed_fold(s0, (n + 1) as nat)
                })
                &&& (r is Err ==> r == Err::<(), MultibootError>(MultibootError::TransmissionError)
                    || r == Err::<(), MultibootError>(MultibootError::TransportFailure))
            }),
    {
        let game = self.rom.game();
        let ghost g = self.game_bytes();
        let ghost words = payload_words(g);
        let ghost log0 = spi.log();
        let ghost a0 = spi.assured();
        let ghost n0 = log0.len() as int;
        let ghost reg0 = crc.register();
        let ghost cm = crc.poly_mask();
        let ghost ds0 = crc.finalize_step();
        let ghost s0 = enc.seed();
        let ghost em = enc.xor_mask();
        let nw = game.len() / 4;
        proof {
            assert(g.len() + 0xc0 <= u32::MAX);
            assert(words.take(0) =~= Seq::<u32>::empty());
            assert(log0.subrange(0, n0) =~= log0);
        }
        let mut i: usize = 0;
        let mut bad: bool = false;
        let mut terr: bool = false;
        while i < nw && !bad && !terr
            invariant
                i <= nw,
                game@ == g,
                g.len() % 4 == 0,
                g.len() + 0xc0 <= u32::MAX,
                nw == g.len() / 4,
                words == payload_words(g),
                n0 == log0.len() as int,
                crc.poly_mask() == cm,
                crc.finalize_step() == ds0,
                enc.xor_mask() == em,
                a0 == old(spi).assured(),
                !bad && !terr ==> {
                    &&& spi.assured() + i >= a0
                    &&& spi.log().len() == n0 + i
                    &&& spi.log().subrange(0, n0) == log0
                    &&& forall|j: int|
                        0 <= j < i ==> #[trigger] spi.log()[n0 + j].0 == cipher_word_at(
                            s0,
                            em,
                            words,
                            j,
                        )
                    &&& forall|j: int|
                        0 <= j < i ==> ack_matches(#[trigger] spi.log()[n0 + j].1, word_off(j))
                    &&& crc.register() == crc_fold(reg0, cm, words.take(i as int))
                    &&& enc.seed() == seed_fold(s0, i as nat)
                },
                bad ==> {
                    &&& 1 <= i <= nw
                    &&& spi.assured() + i >= a0
                    &&& spi.log().len() == n0 + i
                    &&& spi.log().subrange(0, n0) == log0
                    &&& forall|j: int|
                        0 <= j < i ==> #[trigger] spi.log()[n0 + j].0 == cipher_word_at(
                            s0,
                            em,
                            words,
                            j,
                        )
                    &&& forall|j: int|
                        0 <= j < i - 1 ==> ack_matches(#[trigger] spi.log()[n0 + j].1, word_off(j))
                    &&& !ack_matches(spi.log()[n0 + i - 1].1, word_off(i - 1))
                    &&& crc.register() == crc_fold(reg0, cm, words.take(i as int))
                    &&& enc.seed() == seed_fold(s0, i as nat)
                },
                terr ==> {
                    &&& 1 <= i <= nw
                    &&& a0 <= i - 1
                    &&& spi.log().len() == n0 + i - 1
                    &&& spi.log().subrange(0, n0) == log0
                    &&& forall|j: int|
                        0 <= j < i - 1 ==> #[trigger] spi.log()[n0 + j].0 == cipher_word_at(
                            s0,
                            em,
                            words,
                            j,
                        )
                    &&& forall|j: int|
                        0 <= j < i - 1 ==> ack_matches(#[trigger] spi.log()[n0 + j].1, word_off(j))
                    &&& crc.register() == crc_fold(reg0, cm, words.take(i as int))
                    &&& enc.seed() == seed_fold(s0, i as nat)
                },
            decreases nw - i,
        {
            proof {
                assert(4 * (i as int) + 4 <= g.len());
            }
            let b0 = *slice_index_get(game, 4 * i);
            let b1 = *slice_index_get(game, 4 * i + 1);
            let b2 = *slice_index_get(game, 4 * i + 2);
            let b3 = *slice_index_get(game, 4 * i + 3);
            let word: u32 = (b0 as u32) | ((b1 as u32) << 8) | ((b2 as u32) << 16) | ((b3
                as u32) << 24);
            let index: u32 = ((i * 4) + 0xc0) as u32;
            proof {
                assert(word == payload_word(g, i as int));
                assert(words[i as int] == payload_word(g, i as int));
                assert(index == word_off(i as int));
            }
            crc.step(word);
            proof {
                assert(words.take(i as int + 1).drop_last() =~= words.take(i as int));
            }
            let enc_w = enc.step(word, index);
            proof {
                reveal(cipher_word_at);
                assert(enc_w == cipher_word_at(s0, em, words, i as int));
            }
            let ghost log_pre = spi.log();
            match spi.send32(enc_w) {
                Ok(resp) => {
                    proof {
                        lemma_push_preserves_prefix(log0, log_pre, (enc_w, resp));
                    }
                    let check = resp >> 16;
                    if check != (index & 0xFFFF) {
                        bad = true;
                    }
                },
                Err(_) => {
                    terr = true;
                },
            }
            i = i + 1;
        }
        if terr {
            return Err(MultibootError::TransportFailure);
        }
        if bad {
            proof {
                let l = spi.log();
                let k = l.len() - n0 - 1;
                assert(k == i - 1);
            }
            return Err(MultibootError::TransmissionError);
        }
        proof {
            assert(words.take(nw as int) =~= words);
        }
        Ok(())
    }

    /// Checksum validation: poll the peer with the wait command until it
    /// answers ready, bounded by `max_polls` (the unbounded wait of the
    /// documented behaviour is a liveness bug, so the bound is explicit),
    /// then announce the checksum and exchange it; the peer must echo the
    /// digest exactly.
    pub fn validate_checkum<S: GbaSpi>(&self, spi: &mut S, checksum: u16, max_polls: u32) -> (r:
        Result<(), MultibootError>)
        ensures
            ({
                let l = final(spi).log();
                let n0 = old(spi).log().len() as int;
                &&& (r matches Ok(()) ==> {
                    let p = l.len() - n0 - 2;
                    &&& 1 <= p <= max_polls
                    &&& l.subrange(0, n0) == old(spi).log()
                    &&& (forall|j: int| 0 <= j < p ==> #[trigger] l[n0 + j].0 == 0x0065u32)
                    &&& (forall|j: int| 0 <= j < p - 1 ==> hi16(#[trigger] l[n0 + j].1) != 0x0075)
                    &&& hi16(l[n0 + p - 1].1) == 0x0075
                    &&& l[n0 + p].0 == 0x0066u32
                    &&& l[n0 + p + 1].0 == checksum as u32
                    &&& hi16(l[n0 + p + 1].1) == checksum
                })
                &&& (r == Err::<(), MultibootError>(MultibootError::InvalidChecksum) ==> {
                    let p = l.len() - n0 - 2;
                    &&& 1 <= p <= max_polls
                    &&& l.subrange(0, n0) == old(spi).log()
                    &&& (forall|j: int| 0 <= j < p ==> #[trigger] l[n0 + j].0 == 0x0065u32)
                    &&& hi16(l[n0 + p - 1].1) == 0x0075
                    &&& l[n0 + p].0 == 0x0066u32
                    &&& l[n0 + p + 1].0 == checksum as u32
                    &&& hi16(l[n0 + p + 1].1) != checksum
                })
                &&& (r == Err::<(), MultibootError>(MultibootError::ChecksumTimeout) ==> {
                    &&& l.len() == n0 + max_polls
                    &&& l.subrange(0, n0) == old(spi).log()
                    &&& (forall|j: int| 0 <= j < max_polls ==> #[trigger] l[n0 + j].0 == 0x0065u32)
                    &&& (forall|j: int|
                        0 <= j < max_polls ==> hi16(#[trigger] l[n0 + j].1) != 0x0075)
                })
                &&& (old(spi).assured() >= max_polls + 2 ==> !(r == Err::<(),
                    MultibootError>(MultibootError::TransportFailure)))
                &&& (r == Err::<(), MultibootError>(MultibootError::TransportFailure) ==> {
                    let m = l.len() - n0;
                    &&& 0 <= m <= max_polls + 1
                    &&& l.subrange(0, n0) == old(spi).log()
                    &&& (forall|j: int| 0 <= j < m - 1 ==> #[trigger] l[n0 + j].0 == 0x0065u32)
                    &&& (m >= 1 ==> l[n0 + m - 1].0 == 0x0065u32 || l[n0 + m - 1].0 == 0x0066u32)
                })
                &&& (r is Err ==> r == Err::<(), MultibootError>(MultibootError::InvalidChecksum)
                    || r == Err::<(), MultibootError>(MultibootError::ChecksumTimeout)
                    || r == Err::<(), MultibootError>(MultibootError::TransportFailure))
            }),
    {
        let ghost log0 = spi.log();
        let ghost a0 = spi.assured();
        let ghost n0 = log0.len() as int;
        proof {
            assert(log0.subrange(0, n0) =~= log0);
        }
        let mut polls: u32 = 0;
        let mut ready: bool = false;
        let mut terr: bool = false;
        while polls < max_polls && !ready && !terr
            invariant
                polls <= max_polls,
                n0 == log0.len() as int,
                a0 == old(spi).assured(),
                !terr ==> {
                    &&& spi.assured() + polls >= a0
                    &&& spi.log().len() == n0 + polls
                    &&& spi.log().subrange(0, n0) == log0
                    &&& (forall|j: int|
                        0 <= j < polls ==> #[trigger] spi.log()[n0 + j].0 == 0x0065u32)
                    &&& (forall|j: int|
                        0 <= j < polls - 1 ==> hi16(#[trigger] spi.log()[n0 + j].1) != 0x0075)
                    &&& (ready ==> polls >= 1 && hi16(spi.log()[n0 + polls - 1].1) == 0x0075)
                    &&& (!ready ==> forall|j: int|
                        0 <= j < polls ==> hi16(#[trigger] spi.log()[n0 + j].1) != 0x0075)
                },
                terr ==> {
                    &&& 1 <= polls <= max_polls
                    &&& a0 <= polls - 1
                    &&& spi.log().len() == n0 + polls - 1
                    &&& spi.log().subrange(0, n0) == log0
                    &&& (forall|j: int|
                        0 <= j < polls - 1 ==> #[trigger] spi.log()[n0 + j].0 == 0x0065u32)
                },
            decreases max_polls - polls,
        {
            let ghost log_pre = spi.log();
            match spi.send16(0x0065) {
                Ok(resp) => {
                    proof {
                        lemma_push_preserves_prefix(log0, log_pre, spi.log().last());
                    }
                    if resp == 0x0075 {
                        ready = true;
                    }
                },
                Err(_) => {
                    terr = true;
                },
            }
            polls = polls + 1;
        }
        if terr {
            proof {
                if polls >= 2 {
                    assert(spi.log()[n0 + (polls - 2) as int].0 == 0x0065u32);
                }
            }
            return Err(MultibootError::TransportFailure);
        }
        if !ready {
            return Err(MultibootError::ChecksumTimeout);
        }
        let ghost lw = spi.log();
        let ghost p = polls as int;
        match spi.send16(0x0066) {
            Ok(_) => {},
            Err(_) => {
                proof {
                    assert(spi.log().len() - n0 == polls as int);
                    assert(spi.log()[n0 + (polls - 1) as int].0 == 0x0065u32);
                }
                return Err(MultibootError::TransportFailure);
            },
        }
        proof {
            lemma_push_preserves_prefix(log0, lw, spi.log().last());
            assert(forall|j: int| 0 <= j < lw.len() ==> #[trigger] spi.log()[j] == lw[j]);
        }
        let ghost la = spi.log();
        let echo = match spi.send16(checksum) {
            Ok(e) => e,
            Err(_) => {
                proof {
                    lemma_push_preserves_prefix(log0, lw, spi.log().last());
                    assert(forall|j: int|
                        0 <= j < lw.len() ==> #[trigger] spi.log()[j] == lw[j]);
                    assert(spi.log().len() - n0 == p + 1);
                    assert(spi.log()[n0 + p].0 == 0x0066u32);
                }
                return Err(MultibootError::TransportFailure);
            },
        };
        proof {
            lemma_push_preserves_prefix(log0, la, spi.log().last());
            assert(forall|j: int| 0 <= j < la.len() ==> #[trigger] spi.log()[j] == la[j]);
            assert(spi.log().len() - n0 - 2 == p);
        }
        if echo == checksum {
            Ok(())
        } else {
            Err(MultibootError::InvalidChecksum)
        }
    }

    /// The single entry point of a session: header transfer, key exchange,
    /// encrypted payload transfer and checksum validation, in strict order,
    /// short-circuiting on the first error. The readiness probe stays with
    /// the caller, and the checksum-readiness wait is bounded by `max_polls`.
    #[verifier::rlimit(100)]
    pub fn multiboot<S: GbaSpi>(&self, spi: &mut S, max_polls: u32) -> (r: Result<
        (),
        MultibootError,
    >)
        requires
            self.rom_ok(),
        ensures
            ({
                let l = final(spi).log();
                let n0 = old(spi).log().len() as int;
                let words = payload_words(self.game_bytes());
                let nw = words.len() as int;
                let pp = self.pp_val();
                let token = hi16(l[n0 + 100].1);
                let fa = adjusted_final_a(token);
                let fb = lo8(hi16(l[n0 + 102].1));
                let digest = digest_of(fa, fb, words);
                &&& (old(spi).assured() >= 105 + nw + max_polls ==> !(r == Err::<(),
                    MultibootError>(MultibootError::TransportFailure)))
                &&& (r matches Ok(()) ==> {
                    &&& l.len() >= n0 + 103 + nw + 3
                    &&& l.subrange(0, n0) == old(spi).log()
                    &&& sent_words(l.subrange(n0, n0 + 98)) == header_words(self.rom_view())
                    &&& key_probe_sends(pp, l, n0 + 98)
                    &&& hi8(token) == 0x73
                    &&& l[n0 + 101].0 == (0x6400 | fa) as u32
                    &&& l[n0 + 102].0 == len_param(self.aligned()) as u32
                    &&& (forall|j: int|
                        0 <= j < nw ==> #[trigger] l[n0 + 103 + j].0 == cipher_word_at(
                            derived_seed(token, pp),
                            0x43202F2F,
                            words,
                            j,
                        ))
                    &&& (forall|j: int|
                        0 <= j < nw ==> ack_matches(#[trigger] l[n0 + 103 + j].1, word_off(j)))
                    &&& l[l.len() - 2].0 == 0x0066u32
                    &&& l.last().0 == digest as u32
                    &&& hi16(l.last().1) == digest
                })
                &&& (r == Err::<(), MultibootError>(MultibootError::FailedHandshake) ==> {
                    &&& l.len() == n0 + 101
                    &&& l.subrange(0, n0) == old(spi).log()
                    &&& hi8(token) != 0x73
                })
                &&& (r == Err::<(), MultibootError>(MultibootError::TransmissionError) ==> {
                    &&& n0 + 103 < l.len() <= n0 + 103 + nw
                    &&& l.subrange(0, n0) == old(spi).log()
                    &&& hi8(token) == 0x73
                    &&& !ack_matches(l.last().1, word_off(l.len() - n0 - 104))
                })
                &&& (r == Err::<(), MultibootError>(MultibootError::ChecksumTimeout) ==> l.len()
                    == n0 + 103 + nw + max_polls && l.subrange(0, n0) == old(spi).log() && hi8(
                    token,
                ) == 0x73)
                &&& (r == Err::<(), MultibootError>(MultibootError::InvalidChecksum) ==> {
                    &&& l.subrange(0, n0) == old(spi).log()
                    &&& hi8(token) == 0x73
                    &&& l.last().0 == digest as u32
                    &&& hi16(l.last().1) != digest
                })
                &&& (r == Err::<(), MultibootError>(MultibootError::TransportFailure) ==> {
                    &&& l.subrange(0, n0) == old(spi).log()
                    &&& l.len() <= n0 + 103 + nw + max_polls + 1
                    &&& (l.len() < n0 + 98 ==> sent_words(l) == sent_words(old(spi).log())
                        + header_words(self.rom_view()).take(l.len() - n0))
                    &&& (l.len() >= n0 + 98 ==> sent_words(l.subrange(n0, n0 + 98))
                        == header_words(self.rom_view()))
                    &&& (n0 + 98 <= l.len() < n0 + 103 ==> {
                        let m = l.len() - n0 - 98;
                        &&& (m >= 1 ==> l[n0 + 98].0 == 0x6202u32)
                        &&& (m >= 2 ==> l[n0 + 99].0 == (0x6300 | pp) as u32)
                        &&& (m >= 3 ==> l[n0 + 100].0 == (0x6300 | pp) as u32 && hi8(token)
                            == 0x73)
                        &&& (m >= 4 ==> l[n0 + 101].0 == (0x6400 | fa) as u32)
                    })
                    &&& (l.len() >= n0 + 103 ==> {
                        &&& key_probe_sends(pp, l, n0 + 98)
                        &&& hi8(token) == 0x73
                        &&& l[n0 + 101].0 == (0x6400 | fa) as u32
                        &&& l[n0 + 102].0 == len_param(self.aligned()) as u32
                    })
                    &&& (n0 + 103 <= l.len() < n0 + 103 + nw ==> {
                        let n = l.len() - n0 - 103;
                        &&& (forall|j: int|
                            0 <= j < n ==> #[trigger] l[n0 + 103 + j].0 == cipher_word_at(
                                derived_seed(token, pp),
                                0x43202F2F,
                                words,
                                j,
                            ))
                        &&& (forall|j: int|
                            0 <= j < n ==> ack_matches(#[trigger] l[n0 + 103 + j].1, word_off(j)))
                    })
                    &&& (l.len() >= n0 + 103 + nw ==> {
                        let m = l.len() - n0 - 103 - nw;
                        &&& (forall|j: int|
                            0 <= j < nw ==> #[trigger] l[n0 + 103 + j].0 == cipher_word_at(
                                derived_seed(token, pp),
                                0x43202F2F,
                                words,
                                j,
                            ))
                        &&& (forall|j: int|
                            0 <= j < nw ==> ack_matches(#[trigger] l[n0 + 103 + j].1, word_off(j)))
                        &&& (forall|j: int|
                            0 <= j < m - 1 ==> #[trigger] l[n0 + 103 + nw + j].0 == 0x0065u32)
                        &&& (m >= 1 ==> l[l.len() - 1].0 == 0x0065u32 || l[l.len() - 1].0
                            == 0x0066u32)
                    })
                })
            }),
    {
        let ghost log0 = spi.log();
        let ghost n0 = log0.len() as int;
        match self.send_header(spi) {
            Ok(_) => {},
            Err(e) => {
                return Err(e);
            },
        }
        let ghost l1 = spi.log();
        let ghost n1 = l1.len() as int;
        let engines = match self.get_keys(spi) {
            Ok(p) => p,
            Err(e) => {
                proof {
                    lemma_prefix_indexes(l1, spi.log());
                    assert(spi.log().subrange(0, n0) =~= log0);
                    if e == MultibootError::TransportFailure {
                        lemma_header_segment(log0, l1, spi.log(), header_words(self.rom_view()));
                    }
                }
                return Err(e);
            },
        };
        let (mut crc, mut enc) = engines;
        let ghost l2 = spi.log();
        let ghost n2 = l2.len() as int;
        proof {
            lemma_prefix_indexes(l1, l2);
        }
        match self.send_rom(spi, &mut crc, &mut enc) {
            Ok(_) => {},
            Err(e) => {
                proof {
                    lemma_prefix_indexes(l2, spi.log());
                    assert(spi.log().subrange(0, n1) =~= l1);
                    lemma_prefix_indexes(l1, spi.log());
                    assert(spi.log().subrange(0, n0) =~= log0);
                    if e == MultibootError::TransmissionError {
                        assert(spi.log().last() == spi.log()[spi.log().len() - 1]);
                    }
                    if e == MultibootError::TransportFailure {
                        lemma_header_segment(log0, l1, spi.log(), header_words(self.rom_view()));
                    }
                }
                return Err(e);
            },
        }
        let ghost l3 = spi.log();
        let ghost n3 = l3.len() as int;
        proof {
            lemma_prefix_indexes(l2, l3);
            assert(l3.subrange(0, n1) =~= l1);
            lemma_prefix_indexes(l1, l3);
        }
        let checksum = crc.digest();
        proof {
            let token = hi16(l2[n1 + 2].1);
            let fa = adjusted_final_a(token);
            let fb = lo8(hi16(l2[n1 + 4].1));
            let words = payload_words(self.game_bytes());
            assert(checksum == digest_of(fa, fb, words)) by {
                reveal(digest_of);
            }
        }
        let result = self.validate_checkum(spi, checksum, max_polls);
        let ghost l = spi.log();
        proof {
            lemma_prefix_indexes(l3, l);
            assert(l.subrange(0, n2) =~= l2);
            lemma_prefix_indexes(l2, l);
            assert(l.subrange(0, n1) =~= l1);
            lemma_prefix_indexes(l1, l);
            assert(l.subrange(0, n0) =~= log0);
            lemma_header_segment(log0, l1, l, header_words(self.rom_view()));
        }
        match result {
            Ok(_) => Ok(()),
            Err(e) => Err(e),
        }
    }
}

} // verus!
