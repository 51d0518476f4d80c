use rtl_p25::command::Command;
use rtl_p25::control::{apply_command, ControlError, Reply};
use rtl_p25::iq::{decode_iq, IqSample};
use rtl_p25::pipeline::{Baseband, Pipeline};

#[test]
fn decode_iq_little_endian_signed() {
    let bytes = [0x01u8, 0x00, 0xFF, 0xFF, 0x00, 0x80, 0xFF, 0x7F, 0x34, 0x12, 0x00, 0x00];
    let samples = decode_iq(&bytes);
    assert_eq!(
        samples,
        vec![
            IqSample { re: 1, im: -1 },
            IqSample { re: -32768, im: 32767 },
            IqSample { re: 0x1234, im: 0 },
        ]
    );
    assert!(decode_iq(&[]).is_empty());
}

#[test]
fn decode_iq_matches_i16_from_le_bytes() {
    let bytes: Vec<u8> = (0..=255u8).chain((0..=255u8).rev()).collect();
    let samples = decode_iq(&bytes);
    assert_eq!(samples.len(), bytes.len() / 4);
    for (i, s) in samples.iter().enumerate() {
        let b = &bytes[4 * i..4 * i + 4];
        assert_eq!(s.re, i16::from_le_bytes([b[0], b[1]]));
        assert_eq!(s.im, i16::from_le_bytes([b[2], b[3]]));
    }
}

#[test]
fn baseband_size_buf() {
    let mut b: Baseband<(u32, u32)> = Baseband::new();
    assert!(b.buf.is_empty());
    b.size_buf(5, (0, 0));
    assert_eq!(b.buf, vec![(0, 0); 5]);
    b.size_buf(2, (1, 2));
    assert_eq!(b.buf, vec![(1, 2); 2]);
}

#[test]
fn retune_keeps_channel_frequency() {
    let mut p: Pipeline<u8> = Pipeline::new(0, 1200000, 800000000);
    assert_eq!(p.offset, 0);
    p.demod(12500, b"null");
    p.retune(851137500);
    assert_eq!(p.freq, 851137500);
    assert_eq!(p.offset, 12500 - 51137500);
    assert_eq!(p.freq as i64 + p.offset as i64, 800012500);
    p.retune(851137500);
    assert_eq!(p.offset, 12500 - 51137500);
}

#[test]
fn demod_output_path() {
    let mut p: Pipeline<u8> = Pipeline::new(3, 1200000, 851137500);
    assert_eq!(p.demod(-25000, b"null"), b"/dev/null".to_vec());
    assert_eq!(p.offset, -25000);
    assert_eq!(p.demod(100, b"/tmp/mux1"), b"/tmp/mux1".to_vec());
    assert_eq!(p.demod(100, b"nul"), b"nul".to_vec());
    assert_eq!(p.offset, 100);
    assert_eq!(p.idx, 3);
}

#[test]
fn readme_session() {
    let mut pipes: Vec<Pipeline<u8>> = (0..2).map(|i| Pipeline::new(i, 1200000, 800000000)).collect();
    match apply_command(&mut pipes, &Command::Tune { freq: 851137500, nonce: 111 }) {
        Ok(Reply::Tuned { request, ack }) => {
            assert_eq!(request, b"-f 851137500\n".to_vec());
            assert_eq!(ack, b"ok,851137500,111\n".to_vec());
        }
        _ => panic!("tune refused"),
    }
    assert!(pipes.iter().all(|p| p.freq == 851137500 && p.offset == -51137500));
    let cmd = Command::Demod { channel: 0, offset: 12500, output: b"/tmp/mux0".to_vec(), nonce: 222 };
    match apply_command(&mut pipes, &cmd) {
        Ok(Reply::Demodulating { channel, path, ack }) => {
            assert_eq!(channel, 0);
            assert_eq!(path, b"/tmp/mux0".to_vec());
            assert_eq!(ack, b"ok,222\n".to_vec());
        }
        _ => panic!("demod refused"),
    }
    let cmd = Command::Demod { channel: 1, offset: -25000, output: b"/tmp/mux1".to_vec(), nonce: 333 };
    match apply_command(&mut pipes, &cmd) {
        Ok(Reply::Demodulating { channel, ack, .. }) => {
            assert_eq!(channel, 1);
            assert_eq!(ack, b"ok,333\n".to_vec());
        }
        _ => panic!("demod refused"),
    }
    assert_eq!(pipes[0].offset, 12500);
    assert_eq!(pipes[1].offset, -25000);
}

#[test]
fn control_refusals() {
    let mut pipes: Vec<Pipeline<u8>> = (0..2).map(|i| Pipeline::new(i, 1200000, 851137500)).collect();
    let cmd = Command::Demod { channel: 2, offset: 0, output: b"null".to_vec(), nonce: 1 };
    assert!(matches!(apply_command(&mut pipes, &cmd), Err(ControlError::NoSuchChannel)));
    // the tuner cannot move down
    let down = Command::Tune { freq: 851000000, nonce: 1 };
    assert!(matches!(apply_command(&mut pipes, &down), Err(ControlError::CannotRetune)));
    assert!(pipes.iter().all(|p| p.freq == 851137500 && p.offset == 0));
}

#[test]
fn retune_fits_and_wrapping_step() {
    let mut p: Pipeline<u8> = Pipeline::new(0, 2400000, 0);
    assert!(p.retune_fits(5));
    // a step of 2^31 or more is read as negative, as a cast to i32 reads it
    assert!(p.retune_fits(3_000_000_000));
    p.retune(3_000_000_000);
    assert_eq!(p.offset, 1_294_967_296);
    assert_eq!(p.offset, 0i32 - (3_000_000_000u32 as i32));
    assert!(!p.retune_fits(2_999_999_999));
    p.demod(-2_147_483_000, b"null");
    assert!(!p.retune_fits(3_000_001_000));
    assert!(p.retune_fits(3_000_000_648));
}
