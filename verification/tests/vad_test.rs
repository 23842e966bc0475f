use hearth::vad::{extract_chunk, pcm_samples, sustained_speech, VadLog, VadLogError};

/// 2025-01-01T00:00:00Z
const NOW: i64 = 1_735_689_600;

fn score(chunk: &[f32]) -> f32 {
    let rms = (chunk.iter().map(|s| s * s).sum::<f32>() / 512.0).sqrt();
    (rms * 50.0).min(1.0)
}

#[test]
fn test_bytes_to_pcm() {
    // Silence (zeros)
    let raw = vec![0u8; 1024];
    let pcm: Vec<f32> = pcm_samples(&raw).iter().map(|s| *s as f32 / 32768.0).collect();
    assert_eq!(pcm.len(), 512);
    assert!(pcm.iter().all(|s| *s == 0.0));
}

#[test]
fn test_extract_chunk_padding() {
    let pcm = vec![1.0f32; 100];
    let chunk = extract_chunk(&pcm, 0, 0.0f32);
    assert_eq!(chunk[0], 1.0);
    assert_eq!(chunk[99], 1.0);
    assert_eq!(chunk[100], 0.0); // zero-padded
}

#[test]
fn test_wake_word_detection() {
    let silence = [0.0f32; 512];
    let mut speech = [0.0f32; 512];
    for (i, s) in speech.iter_mut().enumerate() {
        *s = (i as f32 * 0.1).sin() * 0.5;
    }

    // No wake word in silence
    let chunks: Vec<[f32; 512]> = (0..90).map(|_| silence).collect();
    let flags: Vec<bool> = chunks.iter().map(|c| score(c) > 0.5).collect();
    assert!(!sustained_speech(&flags));

    // Wake word present with sustained speech
    let mut chunks: Vec<[f32; 512]> = (0..90).map(|_| silence).collect();
    for i in 40..50 {
        chunks[i] = speech;
    }
    let flags: Vec<bool> = chunks.iter().map(|c| score(c) > 0.5).collect();
    assert!(sustained_speech(&flags));
}

#[test]
fn pcm_is_little_endian_signed() {
    let v = pcm_samples(&[0x01, 0x00, 0xff, 0xff, 0x00, 0x80, 0xff, 0x7f, 0x42]);
    assert_eq!(v, vec![1, -1, -32768, 32767]);
}

#[test]
fn chunks_past_the_end() {
    let pcm: Vec<i16> = (0..600).map(|k| k as i16).collect();
    let c = extract_chunk(&pcm, 500, -1);
    assert_eq!(c.len(), 512);
    assert_eq!(c[0], 500);
    assert_eq!(c[99], 599);
    assert_eq!(c[100], -1);
    assert!(extract_chunk(&pcm, 10_000, 7).iter().all(|x| *x == 7));
}

#[test]
fn speech_runs() {
    assert!(!sustained_speech(&[]));
    assert!(!sustained_speech(&[true, true, false, true, true]));
    assert!(sustained_speech(&[false, true, true, true]));
    assert!(sustained_speech(&[true, true, true]));
}

#[test]
fn the_event_log() {
    let mut log = VadLog::new();
    log.log_event("ALLOWED", "1.2.3.4", Some(10), Some(0.9f64.to_bits()), None, NOW + 10).unwrap();
    log.log_event("BLOCKED", "5.6.7.8", None, None, Some("no wake word"), NOW + 20).unwrap();
    log.log_event("ALLOWED", "1.2.3.4", None, None, None, NOW - 10).unwrap();
    let ev = log.get_events(1, NOW + 30);
    assert_eq!(ev.len(), 3);
    assert_eq!(ev[0].event_type, "BLOCKED");
    assert_eq!(ev[0].detail, Some("no wake word".to_string()));
    assert_eq!(ev[2].timestamp, NOW - 10);
    assert_eq!(ev[1].id, 1);
    assert_eq!(f64::from_bits(ev[1].speech_score_bits.unwrap()), 0.9);
    assert_eq!(log.get_today_stats(NOW + 30), (1, 1));
    assert_eq!(log.get_events(0, NOW + 30).len(), 0);
    let _ = VadLogError::Full;
}
