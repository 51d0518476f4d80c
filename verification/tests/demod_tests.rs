use rtl_p25::demod::{P25Demod, PhaseShift, SyncSink, SYNC_0, SYNC_180, SYNC_90, SYNC_LEN, SYNC__90};

/// The dibits of a 48-bit word, most significant first.
fn dibits(word: u64) -> Vec<u8> {
    (0..24).rev().map(|i| ((word >> (2 * i)) & 3) as u8).collect()
}

fn quarter_turn_word(w: u64) -> u64 {
    ((!w & 0x5555_5555_5555) << 1) | ((w & 0xAAAA_AAAA_AAAA) >> 1)
}

#[test]
fn sync_sink_fires_on_last_dibit_of_word() {
    let mut sink = SyncSink::new(SYNC_0, SYNC_LEN);
    let symbols = dibits(SYNC_0);
    for (i, d) in symbols.iter().enumerate() {
        let hit = sink.next(*d);
        assert_eq!(hit, i == symbols.len() - 1);
    }
}

#[test]
fn sync_sink_fires_after_noise() {
    let mut sink = SyncSink::new(SYNC_90, SYNC_LEN);
    for d in [3u8, 3, 2, 1, 0, 0, 1, 2, 3, 3, 3] {
        assert!(!sink.next(d));
    }
    let symbols = dibits(SYNC_90);
    let mut hits = Vec::new();
    for d in symbols {
        hits.push(sink.next(d));
    }
    assert_eq!(hits.iter().filter(|h| **h).count(), 1);
    assert!(hits[23]);
    // one more symbol pushes the word out of the window
    assert!(!sink.next(0));
}

#[test]
fn sync_sink_small_window() {
    // a 4-bit window holds the last two dibits
    let mut sink = SyncSink::new(0b1011, 4);
    assert!(!sink.next(2));
    assert!(sink.next(3));
    assert!(!sink.next(2));
    assert!(sink.next(3));
    assert!(!sink.next(1));
}

#[test]
fn sync_sink_symbol_above_three_is_added_unmasked() {
    // the symbol is added after masking, as the register does
    let mut sink = SyncSink::new(7, 2);
    assert!(sink.next(7));
    // 7 << 2 = 28, masked to 2 bits gives 0, plus 0
    assert!(!sink.next(0));
}

#[test]
fn sync_words_are_quarter_turns() {
    assert_eq!(quarter_turn_word(SYNC_0), SYNC_90);
    assert_eq!(quarter_turn_word(SYNC_90), SYNC_180);
    assert_eq!(quarter_turn_word(SYNC_180), SYNC__90);
    assert_eq!(quarter_turn_word(SYNC__90), SYNC_0);
}

fn corrections_for(word: u64) -> Vec<PhaseShift> {
    let mut demod = P25Demod::new();
    demod.size_buf(64);
    demod.next_block(&dibits(word))
}

#[test]
fn demod_reports_each_rotation() {
    assert_eq!(corrections_for(SYNC_90), vec![PhaseShift::Plus90]);
    assert_eq!(corrections_for(SYNC_180), vec![PhaseShift::Plus180]);
    assert_eq!(corrections_for(SYNC__90), vec![PhaseShift::Minus90]);
    assert_eq!(corrections_for(SYNC_0), vec![]);
}

#[test]
fn demod_correct_phase_on_last_symbol() {
    let mut demod = P25Demod::new();
    let symbols = dibits(SYNC_180);
    for d in &symbols[..23] {
        assert_eq!(demod.correct_phase(*d), None);
    }
    assert_eq!(demod.correct_phase(symbols[23]), Some(PhaseShift::Plus180));
}

#[test]
fn demod_later_sinks_skip_symbol_when_earlier_fires() {
    // Feed the +90 word; the 180 sink misses the symbol the +90 sink fired on.
    let mut demod = P25Demod::new();
    let w90 = dibits(SYNC_90);
    for d in &w90 {
        demod.correct_phase(*d);
    }
    // the 180 word now fits only if the sink saw all 24 symbols of it
    let w180 = dibits(SYNC_180);
    let mut out = Vec::new();
    for d in &w180 {
        if let Some(p) = demod.correct_phase(*d) {
            out.push(p);
        }
    }
    assert_eq!(out, vec![PhaseShift::Plus180]);
}

#[test]
fn demod_block_fills_buffer_front() {
    let mut demod = P25Demod::new();
    demod.size_buf(6);
    assert_eq!(demod.buf_symbols(), &[0u8, 0, 0, 0, 0, 0][..]);
    let shifts = demod.next_block(&[1, 2, 3]);
    assert!(shifts.is_empty());
    assert_eq!(demod.buf_symbols(), &[1u8, 2, 3, 0, 0, 0][..]);
    demod.next_block(&[3, 3]);
    assert_eq!(demod.buf_symbols(), &[3u8, 3, 3, 0, 0, 0][..]);
}

#[test]
fn demod_block_spanning_sync_word() {
    let mut demod = P25Demod::new();
    demod.size_buf(16);
    let w = dibits(SYNC__90);
    assert!(demod.next_block(&w[..12]).is_empty());
    assert_eq!(demod.next_block(&w[12..]), vec![PhaseShift::Minus90]);
}

#[test]
fn phase_shift_degrees() {
    assert_eq!(PhaseShift::Plus90.degrees(), 90);
    assert_eq!(PhaseShift::Plus180.degrees(), 180);
    assert_eq!(PhaseShift::Minus90.degrees(), -90);
}

#[test]
fn demod_plus90_after_noise_on_last_symbol_only() {
    let mut demod = P25Demod::new();
    demod.size_buf(64);
    let mut stream = vec![2u8, 2, 0, 3, 1, 0, 0, 2, 3];
    stream.extend(dibits(SYNC_90));
    stream.extend([0u8, 1, 2]);
    let mut fired_at = Vec::new();
    for (i, d) in stream.iter().enumerate() {
        if demod.correct_phase(*d) == Some(PhaseShift::Plus90) {
            fired_at.push(i);
        }
    }
    assert_eq!(fired_at, vec![9 + 23]);
}
