use manta::decimate::{
    check_evenness, decimation_factor, DecimateStep, DecimatingSource, DecimationError,
};
use manta::dyadic::Dyadic;
use manta::level::Single;
use manta::pace::{pacing_delay, PacedSource};
use manta::replay::{
    after_read, open_replay_wav, replay_wav_center_freq_hz, LoopStep, ReplayKind,
};
use manta::report::Sample;
use manta::wav::{
    normalize, wav_format, wav_header, WavError, WavFormat, WavIqSource, WavLayout,
};
use std::io::Cursor;

const MS: u64 = 1_000_000;

fn hz(x: f64) -> Dyadic {
    Dyadic::from_bits(x.to_bits())
}

fn wav_bytes(channels: u16, fs: u32, values: &[f32]) -> Vec<u8> {
    let spec = hound::WavSpec {
        channels,
        sample_rate: fs,
        bits_per_sample: 32,
        sample_format: hound::SampleFormat::Float,
    };
    let mut out = Cursor::new(Vec::new());
    let mut w = hound::WavWriter::new(&mut out, spec).unwrap();
    for v in values {
        w.write_sample(*v).unwrap();
    }
    w.finalize().unwrap();
    out.into_inner()
}

fn i16_wav_bytes(bits_per_sample: u16, values: &[i32]) -> Vec<u8> {
    let spec = hound::WavSpec {
        channels: 2,
        sample_rate: 96_000,
        bits_per_sample,
        sample_format: hound::SampleFormat::Int,
    };
    let mut out = Cursor::new(Vec::new());
    let mut w = hound::WavWriter::new(&mut out, spec).unwrap();
    for v in values {
        w.write_sample(*v).unwrap();
    }
    w.finalize().unwrap();
    out.into_inner()
}

fn samples() -> Vec<(f32, f32)> {
    (0..1000)
        .map(|i| (i as f32 / 1000.0, -(i as f32) / 2000.0))
        .collect()
}

fn interleaved(samples: &[(f32, f32)]) -> Vec<f32> {
    samples.iter().flat_map(|s| [s.0, s.1]).collect()
}

/// What the reader of floating-point files hands over.
fn singles(bytes: &[u8]) -> Option<Vec<Single>> {
    let reader = hound::WavReader::new(bytes).ok()?;
    let values: Result<Vec<f32>, _> = reader.into_samples::<f32>().collect();
    Some(values.ok()?.iter().map(|v| Single { bits: v.to_bits() }).collect())
}

fn value(x: Single) -> f32 {
    f32::from_bits(x.bits)
}

fn as_floats(v: &[Sample]) -> Vec<(f32, f32)> {
    v.iter().map(|s| (value(s.re), value(s.im))).collect()
}

fn open(bytes: &[u8], center: Option<f64>) -> Result<WavIqSource, WavError> {
    WavIqSource::open(bytes, singles(bytes), center.map(hz))
}

#[test]
fn reads_f32_wav_with_sidecar() {
    let bytes = wav_bytes(2, 96_000, &interleaved(&samples()));
    let mut src = open(&bytes, Some(14_000_000.0)).unwrap();
    assert_eq!(src.sample_rate(), 96_000);
    assert!(src.center_freq_hz().is_whole(14_000_000));
    let all = src.read_all();
    assert_eq!(as_floats(&all), samples());
    assert!(src.read_all().is_empty());
}

#[test]
fn samples_keep_every_bit() {
    let values = [-0.0f32, 0.0, f32::MIN_POSITIVE / 2.0, f32::INFINITY];
    let bytes = wav_bytes(2, 96_000, &values);
    let all = open(&bytes, None).unwrap().read_all();
    let bits: Vec<u32> = all.iter().flat_map(|s| [s.re.bits, s.im.bits]).collect();
    assert_eq!(bits, values.iter().map(|v| v.to_bits()).collect::<Vec<u32>>());
}

#[test]
fn missing_sidecar_means_zero_center() {
    let bytes = wav_bytes(2, 96_000, &interleaved(&samples()));
    let src = open(&bytes, None).unwrap();
    assert!(src.center_freq_hz().is_whole(0));
}

#[test]
fn reads_i16_wav_normalized() {
    let bytes = i16_wav_bytes(16, &[16384, -16384]);
    let mut src = open(&bytes, None).unwrap();
    let all = src.read_all();
    assert_eq!(all.len(), 1);
    assert!((value(all[0].re) - 0.5).abs() < 1e-4);
    assert!((value(all[0].im) + 0.5).abs() < 1e-4);
}

#[test]
fn normalizing_is_exact_for_every_sample() {
    for v in i16::MIN..=i16::MAX {
        assert_eq!(value(normalize(v)), v as f32 / 32768.0);
    }
}

#[test]
fn mono_wav_is_rejected() {
    let bytes = wav_bytes(1, 96_000, &[0.0]);
    assert!(open(&bytes, None).is_err());
    assert!(matches!(open(&bytes, None), Err(WavError::Channels(1))));
}

#[test]
fn other_files_are_rejected_for_what_they_are() {
    assert!(matches!(open(b"RIFF", None), Err(WavError::NotWav)));
    assert_eq!(wav_header(b"not a recording"), None);
    let deep = i16_wav_bytes(24, &[1, 2]);
    assert!(matches!(
        open(&deep, None),
        Err(WavError::Unsupported { float: false, bits_per_sample: 24 })
    ));
    let float = wav_bytes(2, 96_000, &[0.0, 0.0]);
    assert!(matches!(WavIqSource::open(&float, None, None), Err(WavError::Unreadable)));
    let mut cut = i16_wav_bytes(16, &[1, 2, 3, 4]);
    cut.truncate(cut.len() - 1);
    assert!(matches!(open(&cut, None), Err(WavError::Unreadable)));
}

#[test]
fn a_header_says_how_a_file_is_read() {
    let float = wav_bytes(2, 8_000, &[0.0, 0.0]);
    assert_eq!(
        wav_header(&float),
        Some(WavLayout { channels: 2, sample_rate: 8_000, bits_per_sample: 32, float: true })
    );
    assert_eq!(wav_format(&float), Ok(WavFormat::Float32));
    assert_eq!(wav_format(&i16_wav_bytes(16, &[1, 2])), Ok(WavFormat::Int16));
    assert_eq!(wav_format(b""), Err(WavError::NotWav));
}

#[test]
fn read_respects_buffer_boundaries() {
    let bytes = wav_bytes(2, 96_000, &interleaved(&samples()));
    let mut src = open(&bytes, None).unwrap();
    assert_eq!(src.read(300).len(), 300);
    assert_eq!(as_floats(&src.read(300)), samples()[300..600].to_vec());
    assert_eq!(src.read(300).len(), 300);
    assert_eq!(src.read(300).len(), 100);
    assert_eq!(src.read(300).len(), 0);
}

#[test]
fn open_replay_wav_reads_a_stereo_iq_file_at_its_native_rate() {
    let bytes = wav_bytes(2, 96_000, &interleaved(&samples()));
    let sidecar = Some(hz(14_000_000.0));
    assert_eq!(open_replay_wav(&bytes, sidecar), Ok(ReplayKind::Iq));
    let src = WavIqSource::open(&bytes, singles(&bytes), sidecar).unwrap();
    assert_eq!(src.sample_rate(), 96_000);
    assert!(src.center_freq_hz().is_whole(14_000_000));
}

#[test]
fn open_replay_wav_reads_a_mono_48k_file_as_an_audio_source() {
    let bytes = wav_bytes(1, 48_000, &vec![0.0f32; 480]);
    assert_eq!(open_replay_wav(&bytes, None), Ok(ReplayKind::Audio));
}

#[test]
fn open_replay_wav_treats_a_sidecarless_48k_stereo_file_as_rig_audio_not_iq() {
    let values: Vec<(f32, f32)> = (0..300).map(|_| (0.0, 0.9)).collect();
    let bytes = wav_bytes(2, 48_000, &interleaved(&values));
    assert_eq!(open_replay_wav(&bytes, None), Ok(ReplayKind::Audio));
}

#[test]
fn open_replay_wav_still_reads_a_sidecar_backed_48k_stereo_file_as_iq() {
    let bytes = wav_bytes(2, 48_000, &interleaved(&samples()));
    let sidecar = Some(hz(14_000_000.0));
    assert_eq!(open_replay_wav(&bytes, sidecar), Ok(ReplayKind::Iq));
    let mut src = WavIqSource::open(&bytes, singles(&bytes), sidecar).unwrap();
    assert_eq!(src.sample_rate(), 48_000);
    assert_eq!(as_floats(&src.read_all()), samples());
}

#[test]
fn a_sidecar_without_a_positive_frequency_declares_nothing() {
    let bytes = wav_bytes(2, 48_000, &[0.0, 0.0]);
    for f in [0.0, -1.0, f64::NAN, f64::INFINITY] {
        assert_eq!(replay_wav_center_freq_hz(&bytes, Some(hz(f))), None);
        assert_eq!(open_replay_wav(&bytes, Some(hz(f))), Ok(ReplayKind::Audio));
    }
    assert_eq!(open_replay_wav(b"", None), Err(WavError::NotWav));
}

#[test]
fn replay_wav_center_freq_hz_reports_a_sidecar_backed_iq_file() {
    let bytes = wav_bytes(2, 96_000, &interleaved(&samples()));
    let sidecar = Some(hz(14_000_000.0));
    assert_eq!(replay_wav_center_freq_hz(&bytes, sidecar), Some(hz(14_000_000.0)));
}

#[test]
fn replay_wav_center_freq_hz_is_none_for_mono_missing_and_malformed_inputs() {
    let mono = wav_bytes(1, 48_000, &vec![0.0f32; 480]);
    assert_eq!(replay_wav_center_freq_hz(&mono, Some(hz(14_000_000.0))), None);
    let no_sidecar = wav_bytes(2, 96_000, &interleaved(&samples()));
    assert_eq!(replay_wav_center_freq_hz(&no_sidecar, None), None);
    assert_eq!(replay_wav_center_freq_hz(b"", Some(hz(14_000_000.0))), None);
}

#[test]
fn loops_past_end_of_file_reproducing_the_same_samples() {
    let values: Vec<(f32, f32)> = (0..10).map(|i| (i as f32, -(i as f32))).collect();
    let bytes = wav_bytes(2, 8000, &interleaved(&values));
    let mut inner = open(&bytes, None).unwrap();
    for _ in 0..3 {
        let mut reopened = false;
        let got = loop {
            let got = inner.read(10);
            match after_read(got.len(), reopened) {
                LoopStep::Return => break got,
                LoopStep::Reopen => {
                    inner = open(&bytes, None).unwrap();
                    reopened = true;
                }
            }
        };
        let got = as_floats(&got);
        assert_eq!(got.len(), 10);
        for (a, b) in got.iter().zip(values.iter()) {
            assert_eq!((a.0, a.1), (b.0, b.1));
        }
    }
}

#[test]
fn a_loop_goes_round_whatever_the_sizes_of_the_reads() {
    let values: Vec<(f32, f32)> = (0..10).map(|i| (i as f32, -(i as f32))).collect();
    let bytes = wav_bytes(2, 8000, &interleaved(&values));
    let mut inner = open(&bytes, None).unwrap();
    let mut given = Vec::new();
    for max in [3, 4, 7, 1, 20, 6, 6] {
        let mut got = inner.read(max);
        if after_read(got.len(), false) == LoopStep::Reopen {
            inner = open(&bytes, None).unwrap();
            got = inner.read(max);
            assert_eq!(after_read(got.len(), true), LoopStep::Return);
        }
        given.extend(as_floats(&got));
    }
    for (i, sample) in given.iter().enumerate() {
        assert_eq!(*sample, values[i % 10]);
    }
    assert_eq!(given.len(), 30);
}

#[test]
fn an_empty_recording_is_opened_again_once_for_each_read() {
    assert_eq!(after_read(0, false), LoopStep::Reopen);
    assert_eq!(after_read(0, true), LoopStep::Return);
    assert_eq!(after_read(1, false), LoopStep::Return);
}

#[test]
fn paced_source_delivers_the_same_samples_in_the_same_order() {
    let values: Vec<(f32, f32)> = (0..500).map(|i| (i as f32, -(i as f32))).collect();
    let bytes = wav_bytes(2, 1_000_000, &interleaved(&values));
    let mut src = open(&bytes, None).unwrap();
    let mut paced = PacedSource::new(hz(1_000_000.0));
    let mut now = 0;
    let mut drained = Vec::new();
    loop {
        paced.begin_read(now);
        let got = src.read(64);
        if let Some(delay) = paced.end_read(got.len(), now) {
            now += delay;
        }
        if got.is_empty() {
            break;
        }
        drained.extend(as_floats(&got));
    }
    assert_eq!(drained.len(), values.len());
    assert!(drained.iter().zip(values.iter()).all(|(a, b)| a.0 == b.0 && a.1 == b.1));
    assert_eq!(now, 500_000);
}

#[test]
fn paced_source_takes_at_least_the_recording_duration() {
    let mut paced = PacedSource::new(hz(8000.0));
    let mut now = 77;
    let mut left = 2400usize;
    while left > 0 {
        paced.begin_read(now);
        let n = left.min(256);
        left -= n;
        if let Some(delay) = paced.end_read(n, now) {
            now += delay;
        }
    }
    assert!(now - 77 >= 250 * MS);
    assert_eq!(now - 77, 300 * MS);
}

#[test]
fn paced_source_does_not_sleep_when_the_consumer_is_already_behind() {
    let mut paced = PacedSource::new(hz(8000.0));
    paced.begin_read(0);
    assert_eq!(paced.end_read(800, 200 * MS), None);
    assert_eq!(pacing_delay(800, hz(8000.0), 200 * MS), None);
    assert_eq!(pacing_delay(800, hz(8000.0), 40 * MS), Some(60 * MS));
}

#[test]
fn paced_source_paces_the_very_first_read() {
    let mut paced = PacedSource::new(hz(8000.0));
    paced.begin_read(5);
    assert_eq!(paced.end_read(800, 5), Some(100 * MS));
}

#[test]
fn paced_source_clock_starts_at_the_first_read_not_at_construction() {
    let mut paced = PacedSource::new(hz(8000.0));
    paced.begin_read(150 * MS);
    assert_eq!(paced.end_read(800, 150 * MS), Some(100 * MS));
    paced.begin_read(250 * MS);
    assert_eq!(paced.end_read(800, 260 * MS), Some(90 * MS));
}

#[test]
fn paced_source_passes_eof_through() {
    let mut paced = PacedSource::new(hz(8000.0));
    paced.begin_read(0);
    assert_eq!(paced.end_read(5, 0), Some(625_000));
    paced.begin_read(625_000);
    assert_eq!(paced.end_read(0, 625_000), None);
    assert_eq!(pacing_delay(5, hz(8000.0), 0), Some(625_000));
    assert_eq!(pacing_delay(5, hz(8000.0), 625_000), None);
}

#[test]
fn pacing_is_the_same_whatever_the_read_sizes() {
    let mut few = PacedSource::new(hz(44_100.0));
    let mut many = PacedSource::new(hz(44_100.0));
    few.begin_read(0);
    let once = few.end_read(1000, 0);
    many.begin_read(0);
    let mut last = None;
    for _ in 0..1000 {
        last = many.end_read(1, 0);
    }
    assert_eq!(once, last);
    assert_eq!(once, Some(22_675_737));
    assert_eq!(pacing_delay(0, hz(-1.0), 0), None);
    assert_eq!(pacing_delay(9, hz(f64::INFINITY), 0), None);
}

#[test]
fn decimation_divides_evenly_or_not_at_all() {
    let plan = |fs_in: f64, target: f64| {
        let factor = decimation_factor(hz(fs_in / target))?;
        check_evenness(hz(fs_in / factor as f64 - target))?;
        Ok::<usize, DecimationError>(factor)
    };
    assert_eq!(plan(192_000.0, 48_000.0), Ok(4));
    assert_eq!(plan(192_000.0, 70_000.0), Err(DecimationError::Uneven));
    assert_eq!(plan(100_000.0, 50_000.0), Ok(2));
    assert_eq!(plan(1.0, 48_000.0), Err(DecimationError::Uneven));
    assert_eq!(plan(192_000.0, f64::NAN), Err(DecimationError::Uneven));
    assert_eq!(plan(f64::INFINITY, 48_000.0), Err(DecimationError::Uneven));
    assert_eq!(plan(-1.0, 48_000.0), Err(DecimationError::Uneven));
    assert!(check_evenness(hz(1e-7)).is_ok());
    assert!(check_evenness(hz(-1e-7)).is_ok());
    assert!(check_evenness(hz(2e-6)).is_err());
    assert!(check_evenness(hz(-2e-6)).is_err());
}

#[test]
fn rejects_non_power_of_two_factor() {
    let factor = decimation_factor(hz(192_000.0 / 70_000.0)).unwrap();
    assert_eq!(factor, 3);
    assert!(check_evenness(hz(192_000.0 / factor as f64 - 70_000.0)).is_err());
}

#[test]
fn read_yields_roughly_input_len_over_factor_samples_then_eof() {
    let n_in = 40_000usize;
    let mut src = DecimatingSource::new(4);
    let mut cursor = 0;
    let mut out: Vec<u32> = Vec::new();
    loop {
        let mut over = false;
        while let DecimateStep::Fetch(raw) = src.next(500) {
            assert_eq!(raw, 2000);
            let n = raw.min(n_in - cursor);
            if n == 0 {
                over = true;
                break;
            }
            // Every fourth sample stands for the filter.
            let kept = (cursor..cursor + n)
                .filter(|k| k % 4 == 0)
                .map(|k| Sample { re: Single { bits: k as u32 }, im: Single { bits: 0 } })
                .collect();
            cursor += n;
            src.supply(kept);
        }
        if over {
            break;
        }
        out.extend(src.take(300).iter().map(|s| s.re.bits));
    }
    assert_eq!(out, (0..n_in as u32).step_by(4).collect::<Vec<u32>>());
    assert_eq!(src.next(0), DecimateStep::Fetch(4));
}
