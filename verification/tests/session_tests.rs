//! Whole-session checks of the protocol engine against a scripted transport:
//! handshake failure, mid-transfer failure, checksum outcomes, and a golden
//! end-to-end transfer.

use gba_multiboot::multiboot::{Gba, MultibootError};
use gba_multiboot::transport::ScriptedTransport;

/// 192 zero header bytes with a 4-byte game-code field, followed by the given
/// payload bytes.
fn rom_with_payload(payload: &[u8]) -> Vec<u8> {
    let mut bytes = vec![0u8; 192];
    bytes[0xAC..0xB0].copy_from_slice(b"GMBT");
    bytes.extend_from_slice(payload);
    bytes
}

/// Responses for the header phase: 98 exchanges whose responses are ignored.
fn header_responses() -> Vec<u32> {
    vec![0u32; 98]
}

/// Responses for a successful key exchange: re-arm, priming exchange, token,
/// then the responses carrying nothing and `finalB`.
fn key_responses(token: u32, final_b_resp: u32) -> Vec<u32> {
    vec![0, 0, token, 0, final_b_resp]
}

#[test]
fn handshake_token_without_marker_fails_before_payload() {
    let bytes = rom_with_payload(&[0u8; 16]);
    let gba = Gba::new(&bytes);
    let mut script = header_responses();
    // Token with high byte 0x00 instead of 0x73.
    script.extend_from_slice(&[0, 0, 0x00F2_0000]);
    // Generous tail that must never be consumed.
    script.extend_from_slice(&[0u32; 32]);
    let mut spi = ScriptedTransport::new(script);
    let r = gba.multiboot(&mut spi, 10);
    assert!(matches!(r, Err(MultibootError::FailedHandshake)));
    // 98 header exchanges and 3 key exchanges: no payload word was sent.
    assert_eq!(spi.history().len(), 101);
}

#[test]
fn corrupted_ack_stops_transfer() {
    // 80 payload bytes: 20 words at offsets 0xC0, 0xC4, ... 0x10C.
    let bytes = rom_with_payload(&[0u8; 80]);
    let gba = Gba::new(&bytes);
    let mut script = header_responses();
    script.append(&mut key_responses(0x73F2_0000, 0x0002_0000));
    // Correct acknowledgments for the 16 words at offsets 0xC0..=0xFC.
    for j in 0..16u32 {
        script.push((0xC0 + 4 * j) << 16);
    }
    // Corrupted acknowledgment for the word at offset 0x100.
    script.push(0x0000_0000);
    // Tail that must never be consumed.
    script.extend_from_slice(&[0u32; 32]);
    let mut spi = ScriptedTransport::new(script);
    let r = gba.multiboot(&mut spi, 10);
    assert!(matches!(r, Err(MultibootError::TransmissionError)));
    // 98 + 5 key exchanges + 17 payload words, nothing after the mismatch.
    assert_eq!(spi.history().len(), 120);
    let last = spi.history()[119];
    assert_eq!(last.1, 0);
}

#[test]
fn golden_end_to_end_transfer() {
    let payload: Vec<u8> = (0u8..16).collect();
    let bytes = rom_with_payload(&payload);
    let gba = Gba::new(&bytes);

    // finalA = (0xF2 + 0xF) & 0xFF = 0x01, finalB = 0x02, fixed by the
    // scripted transport; the digest of the documented algorithm over the
    // payload words with that pair is 0xE628.
    let digest: u32 = 0xE628;
    let mut script = header_responses();
    script.append(&mut key_responses(0x73F2_0000, 0x0002_0000));
    for j in 0..4u32 {
        script.push((0xC0 + 4 * j) << 16);
    }
    script.push(0x0075_0000); // ready for checksum
    script.push(0); // response to the announce command
    script.push(digest << 16); // peer echoes the digest
    let mut spi = ScriptedTransport::new(script);
    let r = gba.multiboot(&mut spi, 10);
    assert!(r.is_ok());

    let history = spi.history();
    assert_eq!(history.len(), 110);
    // Header phase: start command, 96 little-endian words, end command.
    assert_eq!(history[0].0, 0x6100);
    assert_eq!(history[1 + 0xAC / 2].0, u16::from_le_bytes([b'G', b'M']) as u32);
    assert_eq!(history[1 + 0xAE / 2].0, u16::from_le_bytes([b'B', b'T']) as u32);
    assert_eq!(history[97].0, 0x6200);
    // Key exchange: re-arm, two palette commands, finalA command, length.
    assert_eq!(history[98].0, 0x6202);
    assert_eq!(history[99].0, 0x6381);
    assert_eq!(history[100].0, 0x6381);
    assert_eq!(history[101].0, 0x6401);
    // ((16 / 4) - 0x34) wrapped to 16 bits.
    assert_eq!(history[102].0, 0xFFD0);
    // Encrypted payload words for seed 0xFFFFF281.
    assert_eq!(history[103].0, 0x19D7059B);
    assert_eq!(history[104].0, 0x4BE8388A);
    assert_eq!(history[105].0, 0xD6557797);
    assert_eq!(history[106].0, 0x2D1BD20E);
    // Checksum phase: wait, announce, digest.
    assert_eq!(history[107].0, 0x0065);
    assert_eq!(history[108].0, 0x0066);
    assert_eq!(history[109].0, digest);
}

#[test]
fn wrong_echo_is_invalid_checksum() {
    let payload: Vec<u8> = (0u8..16).collect();
    let bytes = rom_with_payload(&payload);
    let gba = Gba::new(&bytes);
    let mut script = header_responses();
    script.append(&mut key_responses(0x73F2_0000, 0x0002_0000));
    for j in 0..4u32 {
        script.push((0xC0 + 4 * j) << 16);
    }
    script.push(0x0075_0000);
    script.push(0);
    script.push(0x1234_0000); // echo differs from the digest 0xE628
    let mut spi = ScriptedTransport::new(script);
    let r = gba.multiboot(&mut spi, 10);
    assert!(matches!(r, Err(MultibootError::InvalidChecksum)));
}

#[test]
fn unready_peer_times_out() {
    let payload: Vec<u8> = (0u8..16).collect();
    let bytes = rom_with_payload(&payload);
    let gba = Gba::new(&bytes);
    let mut script = header_responses();
    script.append(&mut key_responses(0x73F2_0000, 0x0002_0000));
    for j in 0..4u32 {
        script.push((0xC0 + 4 * j) << 16);
    }
    // The peer never answers the readiness word.
    script.extend_from_slice(&[0u32; 3]);
    let mut spi = ScriptedTransport::new(script);
    let r = gba.multiboot(&mut spi, 3);
    assert!(matches!(r, Err(MultibootError::ChecksumTimeout)));
    assert_eq!(spi.history().len(), 110);
}

#[test]
fn exhausted_transport_surfaces_failure() {
    let bytes = rom_with_payload(&[0u8; 16]);
    let gba = Gba::new(&bytes);
    let mut spi = ScriptedTransport::new(Vec::new());
    let r = gba.multiboot(&mut spi, 10);
    assert!(matches!(r, Err(MultibootError::TransportFailure)));
    assert_eq!(spi.history().len(), 0);
}

#[test]
fn exhausted_mid_transfer_surfaces_failure() {
    let payload: Vec<u8> = (0u8..16).collect();
    let bytes = rom_with_payload(&payload);
    let gba = Gba::new(&bytes);
    let mut script = header_responses();
    script.append(&mut key_responses(0x73F2_0000, 0x0002_0000));
    // Only the first payload acknowledgment; the script ends mid-transfer.
    script.push(0x00C0_0000);
    let mut spi = ScriptedTransport::new(script);
    let r = gba.multiboot(&mut spi, 10);
    assert!(matches!(r, Err(MultibootError::TransportFailure)));
    // The exchanges completed before the failure stay on the record.
    assert_eq!(spi.history().len(), 104);
    assert_eq!(spi.history()[98].0, 0x6202);
}

#[test]
fn readiness_probe() {
    let bytes = rom_with_payload(&[0u8; 16]);
    let gba = Gba::new(&bytes);

    let mut spi = ScriptedTransport::new(vec![0x7202_0000]);
    assert_eq!(gba.is_ready(&mut spi), Ok(true));
    assert_eq!(spi.history()[0].0, 0x6202);

    let mut spi = ScriptedTransport::new(vec![0x0000_0000]);
    assert_eq!(gba.is_ready(&mut spi), Ok(false));

    let mut spi = ScriptedTransport::new(Vec::new());
    assert_eq!(gba.is_ready(&mut spi), Err(MultibootError::TransportFailure));
}

#[test]
fn configuration_bits_reach_the_wire() {
    let bytes = rom_with_payload(&[0u8; 16]);
    // pp = 0x81 + 1 * 0x10 + 1 * 0x8 + 1 * 0x2 = 0x9B.
    let gba = Gba::new_with_config(&bytes, 1, 1, 1);
    let mut script = header_responses();
    script.extend_from_slice(&[0, 0, 0x00F2_0000]);
    let mut spi = ScriptedTransport::new(script);
    let r = gba.multiboot(&mut spi, 10);
    assert!(matches!(r, Err(MultibootError::FailedHandshake)));
    assert_eq!(spi.history()[99].0, 0x639B);
    assert_eq!(spi.history()[100].0, 0x639B);
}

#[test]
fn validate_checkum_accepts_exact_echo() {
    let bytes = rom_with_payload(&[0u8; 16]);
    let gba = Gba::new(&bytes);
    // Two unready polls, then ready, announce, and an exact echo.
    let script = vec![0u32, 0, 0x0075_0000, 0, 0xABCD_0000];
    let mut spi = ScriptedTransport::new(script);
    assert_eq!(gba.validate_checkum(&mut spi, 0xABCD, 5), Ok(()));
    assert_eq!(spi.history().len(), 5);
    assert_eq!(spi.history()[3].0, 0x0066);
    assert_eq!(spi.history()[4].0, 0xABCD);
}
