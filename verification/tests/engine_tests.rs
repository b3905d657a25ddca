//! Checks of the checksum engine, the keystream generator and the ROM view
//! against hand-run values of the documented algorithms.

use gba_multiboot::crc::{Crc, EncryptState};
use gba_multiboot::rom::Rom;

fn manual_digest(final_a: u16, final_b: u16, words: &[u32]) -> u16 {
    let mask: u32 = 0xC37B;
    let mut reg: u32 = 0xC387;
    let finalize: u32 = 0xFFFF0000 | ((final_b as u32) << 8) | (final_a as u32);
    let mut all: Vec<u32> = words.to_vec();
    all.push(finalize);
    for w in all {
        let mut value = w;
        for _ in 0..32 {
            let bit = (reg ^ value) & 1;
            reg >>= 1;
            if bit != 0 {
                reg ^= mask;
            }
            value >>= 1;
        }
    }
    reg as u16
}

#[test]
fn crc_digest_golden() {
    let mut crc = Crc::new_normal(0x12, 0x34);
    crc.step(0xDEADBEEF);
    crc.step(0x00000000);
    assert_eq!(crc.digest(), 0xBD04);
}

#[test]
fn crc_digest_matches_manual_algorithm() {
    let words = [0x11111111u32, 0x22222222, 0xCAFEBABE, 0x00000000, 0xFFFFFFFF];
    let mut crc = Crc::new_normal(0xAB, 0xCD);
    for w in words {
        crc.step(w);
    }
    assert_eq!(crc.digest(), manual_digest(0xAB, 0xCD, &words));
}

#[test]
fn crc_digest_deterministic_across_instances() {
    let words = [0x00010203u32, 0x04050607, 0x08090A0B];
    let mut a = Crc::new_normal(0x01, 0x02);
    let mut b = Crc::new_normal(0x01, 0x02);
    for w in words {
        a.step(w);
        b.step(w);
    }
    assert_eq!(a.digest(), b.digest());
}

#[test]
fn crc_step_no_hidden_state() {
    let mut a = Crc::new_normal(0x55, 0x66);
    let mut b = Crc::new_normal(0x55, 0x66);
    a.step(0xDEADBEEF);
    b.step(0xDEADBEEF);
    a.step(0x0BADF00D);
    b.step(0x0BADF00D);
    assert_eq!(a.digest(), b.digest());
}

#[test]
fn keystream_golden() {
    let mut gen = EncryptState::new_normal(0);
    assert_eq!(gen.step(0, 0), 0xBD202F2E);
}

#[test]
fn keystream_roundtrip_same_state() {
    let mut gen1 = EncryptState::new_normal(1000);
    let mut gen2 = EncryptState::new_normal(1000);
    let plain = [0x11223344u32, 0x55667788, 0x99AABBCC];
    let mut index: u32 = 0xC0;
    for p in plain {
        let cipher = gen1.step(p, index);
        assert_eq!(gen2.step(cipher, index), p);
        index += 4;
    }
}

#[test]
fn keystream_roundtrip_needs_same_call_count() {
    let mut gen1 = EncryptState::new_normal(1000);
    let mut gen2 = EncryptState::new_normal(1000);
    let cipher = gen1.step(0x11223344, 0xC0);
    // One extra prior call: the seeds no longer agree, and the same index
    // does not bring them back.
    gen2.step(0, 0xC0);
    let recovered = gen2.step(cipher, 0xC0);
    assert_ne!(recovered, 0x11223344);
    assert_eq!(recovered, 0x0F021BE1);
}

#[test]
fn aligned_length_is_multiple_of_16() {
    for len in [192usize, 200, 207, 208, 256, 1000] {
        let bytes = vec![0u8; len];
        let rom = Rom::new(&bytes);
        let aligned = rom.aligned_game_len();
        assert_eq!(aligned % 16, 0);
        assert_eq!(aligned, (len as u32) & !0xF);
        assert_eq!(rom.game().len() as u32, aligned - 192);
    }
}

#[test]
fn header_and_game_split() {
    let mut bytes = vec![0u8; 208];
    for (i, b) in bytes.iter_mut().enumerate() {
        *b = i as u8;
    }
    let rom = Rom::new(&bytes);
    assert_eq!(rom.header(), &bytes[..192]);
    assert_eq!(rom.game(), &bytes[192..208]);
    assert_eq!(rom.aligned_game_len(), 208);
}

#[test]
fn game_drops_unaligned_tail() {
    let bytes = vec![7u8; 205];
    let rom = Rom::new(&bytes);
    assert_eq!(rom.aligned_game_len(), 192);
    assert_eq!(rom.game().len(), 0);
}
