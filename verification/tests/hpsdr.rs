use manta::dyadic::Dyadic;
use manta::hpsdr::{
    GapDetector, GapStats, HpsdrConfig, HpsdrDevice, PumpStep, MAX_CONSECUTIVE_MALFORMED,
    MAX_CONSECUTIVE_TIMEOUTS,
};
use manta::metis::{
    build_cc_packet, build_cc_usb_frame, build_general_cc, build_rx_freq_cc, build_start_command,
    cc_c0, cc_rx_freq_addr, cc_sample_rate_code, decode_i24_be, demux_metis_packet,
    on_wire_centibits, samples_per_usb_frame, validate_ddc_config, HpsdrError, RawIq, CONTROL_PORT,
    IQ_BYTES_PER_SAMPLE, IQ_FULL_SCALE, METIS_HEADER_LEN, METIS_PACKET_LEN, MIC_AUX_BYTES,
    USB_FRAMES_PER_PACKET, USB_FRAME_LEN, USB_SUBHEADER_LEN,
};

const USB_SYNC: [u8; 3] = [0x7F, 0x7F, 0x7F];

fn hz(x: f64) -> Dyadic {
    Dyadic::from_bits(x.to_bits())
}

fn scaled(v: i32) -> f32 {
    v as f32 / IQ_FULL_SCALE as f32
}

fn encode_i24_be(sample: f32) -> [u8; 3] {
    let raw = (sample * IQ_FULL_SCALE as f32).round() as i32;
    let raw = raw & 0x00FF_FFFF;
    [(raw >> 16) as u8, (raw >> 8) as u8, raw as u8]
}

/// A packet in which every sample of a receiver has the value given for it.
fn synth_metis_packet(num_receivers: usize, value_for: impl Fn(usize) -> (f32, f32)) -> Vec<u8> {
    let mut pkt = vec![0u8; METIS_PACKET_LEN];
    let stride = num_receivers * IQ_BYTES_PER_SAMPLE + MIC_AUX_BYTES;
    let n_frames = samples_per_usb_frame(num_receivers);
    for frame in 0..USB_FRAMES_PER_PACKET {
        let frame_start = METIS_HEADER_LEN + frame * USB_FRAME_LEN;
        pkt[frame_start..frame_start + 3].copy_from_slice(&USB_SYNC);
        let payload_start = frame_start + USB_SUBHEADER_LEN;
        for f in 0..n_frames {
            let base = payload_start + f * stride;
            for rx in 0..num_receivers {
                let off = base + rx * IQ_BYTES_PER_SAMPLE;
                let s = value_for(rx);
                pkt[off..off + 3].copy_from_slice(&encode_i24_be(s.0));
                pkt[off + 3..off + 6].copy_from_slice(&encode_i24_be(s.1));
            }
        }
    }
    pkt
}

fn config(ddc_count: usize, rate: f64, freqs: Vec<f64>) -> HpsdrConfig {
    let mut center_freq_hz = Vec::new();
    for f in freqs {
        center_freq_hz.push(hz(f));
    }
    HpsdrConfig {
        host: String::from("127.0.0.1"),
        port: CONTROL_PORT,
        ddc_count,
        sample_rate_hz: hz(rate),
        center_freq_hz,
    }
}

#[test]
fn samples_per_usb_frame_matches_spike_stride_math() {
    assert_eq!(samples_per_usb_frame(1), 63);
    assert_eq!(samples_per_usb_frame(2), 36);
    assert_eq!(samples_per_usb_frame(8), 10);
    assert_eq!(samples_per_usb_frame(0), 0);
}

#[test]
fn samples_per_usb_frame_of_more_receivers_than_fit_is_zero() {
    assert_eq!(samples_per_usb_frame(83), 1);
    assert_eq!(samples_per_usb_frame(84), 0);
    assert_eq!(samples_per_usb_frame(usize::MAX), 0);
}

#[test]
fn decodes_i24_be_positive_and_negative() {
    let scale = IQ_FULL_SCALE as f32;
    assert!((scaled(decode_i24_be(&[0x00, 0x00, 0x01], 0)) - 1.0 / scale).abs() < 1e-9);
    assert!((scaled(decode_i24_be(&[0x7F, 0xFF, 0xFF], 0)) - 1.0).abs() < 1e-6);
    assert!((scaled(decode_i24_be(&[0xFF, 0xFF, 0xFF], 0)) - (-1.0 / scale)).abs() < 1e-9);
    assert!((scaled(decode_i24_be(&[0x80, 0x00, 0x00], 0)) - (-1.0)).abs() < 1e-6);
    assert_eq!(decode_i24_be(&[0x80, 0x00, 0x00], 0), -8_388_608);
}

#[test]
fn demux_attributes_samples_to_the_right_ddc() {
    let num_receivers = 3;
    let values = [(0.25, -0.25), (0.5, 0.1), (-0.75, 0.9)];
    let pkt = synth_metis_packet(num_receivers, |rx| values[rx]);
    let mut out: Vec<Vec<RawIq>> = vec![Vec::new(); num_receivers];
    demux_metis_packet(&pkt, num_receivers, &mut out).unwrap();
    let expected_per_frame = USB_FRAMES_PER_PACKET * samples_per_usb_frame(num_receivers);
    for (rx, samples) in out.iter().enumerate() {
        assert_eq!(samples.len(), expected_per_frame);
        for s in samples {
            assert!((scaled(s.i) - values[rx].0).abs() < 1e-4);
            assert!((scaled(s.q) - values[rx].1).abs() < 1e-4);
        }
    }
}

#[test]
fn demux_keeps_the_order_of_samples_across_frames() {
    let n = samples_per_usb_frame(1);
    let mut pkt = synth_metis_packet(1, |_| (0.0, 0.0));
    for frame in 0..2 {
        for s in 0..n {
            let at = METIS_HEADER_LEN + frame * USB_FRAME_LEN + USB_SUBHEADER_LEN + s * 8;
            pkt[at + 2] = (frame * n + s) as u8;
            pkt[at + 5] = 255 - (frame * n + s) as u8;
        }
    }
    let mut out: Vec<Vec<RawIq>> = vec![vec![RawIq { i: 7, q: 8 }]];
    demux_metis_packet(&pkt, 1, &mut out).unwrap();
    assert_eq!(out[0].len(), 1 + 126);
    assert_eq!(out[0][0], RawIq { i: 7, q: 8 });
    for k in 0..126 {
        assert_eq!(out[0][1 + k], RawIq { i: k as i32, q: 255 - k as i32 });
    }
}

#[test]
fn wrong_packet_length_is_a_clean_error() {
    let mut out: Vec<Vec<RawIq>> = vec![Vec::new(); 1];
    assert!(demux_metis_packet(&[0u8; 100], 1, &mut out).is_err());
    assert_eq!(
        demux_metis_packet(&[0u8; 100], 1, &mut out),
        Err(HpsdrError::PacketLength { len: 100 })
    );
}

#[test]
fn bad_usb_sync_is_a_clean_error() {
    let mut pkt = synth_metis_packet(1, |_| (0.0, 0.0));
    pkt[METIS_HEADER_LEN] = 0x00;
    let mut out: Vec<Vec<RawIq>> = vec![Vec::new(); 1];
    assert!(demux_metis_packet(&pkt, 1, &mut out).is_err());
    assert!(out[0].is_empty());
}

#[test]
fn a_packet_refused_for_its_second_frame_has_left_its_first() {
    let mut pkt = synth_metis_packet(1, |_| (0.5, 0.5));
    pkt[METIS_HEADER_LEN + USB_FRAME_LEN + 2] = 0x00;
    let mut out: Vec<Vec<RawIq>> = vec![Vec::new(); 1];
    assert_eq!(
        demux_metis_packet(&pkt, 1, &mut out),
        Err(HpsdrError::BadSync { frame: 1 })
    );
    assert_eq!(out[0].len(), 63);
}

#[test]
fn too_few_slots_is_a_clean_error() {
    let pkt = synth_metis_packet(2, |_| (0.0, 0.0));
    let mut out: Vec<Vec<RawIq>> = vec![Vec::new(); 1];
    assert_eq!(
        demux_metis_packet(&pkt, 2, &mut out),
        Err(HpsdrError::TooFewSlots { have: 1, need: 2 })
    );
    assert!(out[0].is_empty());
}

#[test]
fn on_wire_mbps_matches_spike_derivation() {
    let mbps = on_wire_centibits(hz(192_000.0), 8).unwrap() as f64 / 1e8;
    assert!((mbps - 78.15).abs() < 0.1);
    assert_eq!(on_wire_centibits(hz(192_000.0), 8), Some(7_815_168_000));
    assert_eq!(on_wire_centibits(hz(1e300), 8), None);
}

#[test]
fn validate_ddc_config_accepts_the_8_ddc_192khz_ceiling() {
    assert!(validate_ddc_config(hz(192_000.0), 8).is_ok());
}

#[test]
fn validate_ddc_config_rejects_hl2_skimmer_gateware_at_192khz() {
    assert!(validate_ddc_config(hz(192_000.0), 9).is_err());
    assert!(validate_ddc_config(hz(192_000.0), 10).is_err());
}

#[test]
fn validate_ddc_config_allows_more_ddcs_at_lower_rates() {
    assert!(validate_ddc_config(hz(48_000.0), 32).is_ok());
    assert!(validate_ddc_config(hz(48_000.0), 40).is_err());
}

#[test]
fn validate_ddc_config_rejects_zero_ddcs() {
    assert!(validate_ddc_config(hz(192_000.0), 0).is_err());
    assert_eq!(validate_ddc_config(hz(f64::NAN), 0), Err(HpsdrError::NoReceivers));
}

#[test]
fn validate_ddc_config_measures_any_rate() {
    assert!(validate_ddc_config(hz(f64::NAN), 1).is_ok());
    assert!(validate_ddc_config(hz(f64::NEG_INFINITY), 1).is_ok());
    assert!(validate_ddc_config(hz(-1e9), 1).is_ok());
    assert!(validate_ddc_config(hz(0.0), 1_000_000).is_ok());
    assert!(validate_ddc_config(hz(1e-320), usize::MAX).is_ok());
    assert!(validate_ddc_config(hz(1.0), usize::MAX).is_err());
    assert_eq!(
        validate_ddc_config(hz(f64::INFINITY), 1),
        Err(HpsdrError::OverLinkBudget { ddc_count: 1 })
    );
    assert_eq!(
        validate_ddc_config(hz(1e300), 2),
        Err(HpsdrError::OverLinkBudget { ddc_count: 2 })
    );
}

#[test]
fn a_larger_count_is_refused_where_a_smaller_one_is() {
    let mut refused = false;
    for n in 1..60 {
        let now = validate_ddc_config(hz(96_000.5), n).is_err();
        assert!(now || !refused);
        refused = now;
    }
    assert!(refused);
}

#[test]
fn gap_detector_stays_quiet_on_steady_cadence() {
    let mut gap = GapDetector::new(hz(192_000.0), 1, hz(1.5));
    let interval = gap.expected_interval();
    assert_eq!(interval, 656_250);
    let mut now: u64 = 1_000;
    for _ in 0..10 {
        assert!(!gap.observe(now));
        now += interval;
    }
    assert_eq!(gap.stats(), GapStats::default());
}

#[test]
fn gap_detector_flags_a_missed_packet() {
    let mut gap = GapDetector::new(hz(192_000.0), 1, hz(1.5));
    let interval = gap.expected_interval();
    let mut now: u64 = 1_000;
    assert!(!gap.observe(now));
    now += interval;
    assert!(!gap.observe(now));
    now += interval * 3;
    assert!(gap.observe(now));
    let stats = gap.stats();
    assert_eq!(stats.gaps_detected, 1);
    assert!(stats.dropped_packets >= 1);
    assert_eq!(stats.dropped_packets, 2);
}

#[test]
fn gap_detector_flags_exactly_past_the_tolerance() {
    let mut gap = GapDetector::new(hz(192_000.0), 1, hz(1.5));
    assert!(!gap.observe(0));
    assert!(!gap.observe(984_375));
    assert!(gap.observe(984_375 + 984_376));
    assert_eq!(gap.stats().dropped_packets, 1);
    assert!(!gap.observe(0));
}

#[test]
fn gap_detector_does_not_round_its_threshold() {
    // One and a half intervals are 156250.5 ns, and 492187.5 ns.
    for (rate, receivers, interval, past) in
        [(192_000.0, 8, 104_167, 156_251), (384_000.0, 1, 328_125, 492_188)]
    {
        let mut gap = GapDetector::new(hz(rate), receivers, hz(1.5));
        assert_eq!(gap.expected_interval(), interval);
        assert!(!gap.observe(0));
        assert!(!gap.observe(past - 1));
        assert!(gap.observe(past - 1 + past));
        assert_eq!(gap.stats().gaps_detected, 1);
        assert_eq!(gap.stats().dropped_packets, 1);
    }
}

#[test]
fn gap_detector_without_a_usable_rate_expects_a_packet_a_second() {
    assert_eq!(GapDetector::new(hz(0.0), 1, hz(1.5)).expected_interval(), 1_000_000_000);
    assert_eq!(GapDetector::new(hz(-1.0), 1, hz(1.5)).expected_interval(), 1_000_000_000);
    assert_eq!(GapDetector::new(hz(192_000.0), 0, hz(1.5)).expected_interval(), 1_000_000_000);
    let mut never = GapDetector::new(hz(f64::INFINITY), 1, hz(1.5));
    assert_eq!(never.expected_interval(), 0);
    assert!(!never.observe(1));
    assert!(!never.observe(1_000_000_000_000));
}

#[test]
fn record_malformed_counts() {
    let mut gap = GapDetector::new(hz(192_000.0), 1, hz(1.5));
    gap.record_malformed();
    gap.record_malformed();
    assert_eq!(
        gap.stats(),
        GapStats { dropped_packets: 0, gaps_detected: 0, malformed_packets: 2 }
    );
}

#[test]
fn cc_sample_rate_code_matches_protocol_encoding() {
    assert_eq!(cc_sample_rate_code(hz(48_000.0)).unwrap(), 0b00);
    assert_eq!(cc_sample_rate_code(hz(96_000.0)).unwrap(), 0b01);
    assert_eq!(cc_sample_rate_code(hz(192_000.0)).unwrap(), 0b10);
    assert_eq!(cc_sample_rate_code(hz(384_000.0)).unwrap(), 0b11);
    assert!(cc_sample_rate_code(hz(44_100.0)).is_err());
}

#[test]
fn cc_sample_rate_code_rejects_a_near_miss_rate() {
    assert!(cc_sample_rate_code(hz(191_999.75)).is_err());
    assert!(cc_sample_rate_code(hz(192_000.25)).is_err());
    assert_eq!(cc_sample_rate_code(hz(-192_000.0)), Err(HpsdrError::UnsupportedRate));
}

#[test]
fn cc_rx_freq_addr_matches_protocol_gap_at_0x09_through_0x11() {
    assert_eq!(cc_rx_freq_addr(0).unwrap(), 0x02);
    assert_eq!(cc_rx_freq_addr(6).unwrap(), 0x08);
    assert_eq!(cc_rx_freq_addr(7).unwrap(), 0x12);
    assert_eq!(cc_rx_freq_addr(11).unwrap(), 0x16);
    assert!(cc_rx_freq_addr(12).is_err());
}

#[test]
fn build_general_cc_encodes_rate_and_receiver_count() {
    let cc = build_general_cc(hz(192_000.0), 3).unwrap();
    assert_eq!(cc[0], cc_c0(0x00));
    assert_eq!(cc[1] & 0x03, 0b10);
    assert_eq!((cc[4] >> 3) & 0x0F, 2);
    assert_eq!(
        build_general_cc(hz(192_000.0), 13),
        Err(HpsdrError::ReceiverCount { ddc_count: 13 })
    );
    assert_eq!(build_general_cc(hz(1.0), 0), Err(HpsdrError::UnsupportedRate));
}

#[test]
fn build_rx_freq_cc_encodes_big_endian_hz_no_scaling() {
    let cc = build_rx_freq_cc(0, hz(14_200_000.0)).unwrap();
    assert_eq!(cc[0], cc_c0(0x02));
    let freq = u32::from_be_bytes([cc[1], cc[2], cc[3], cc[4]]);
    assert_eq!(freq, 14_200_000);
    let cc8 = build_rx_freq_cc(7, hz(21_050_000.0)).unwrap();
    assert_eq!(cc8[0], cc_c0(0x12));
}

#[test]
fn build_rx_freq_cc_rejects_out_of_range_frequencies() {
    assert!(build_rx_freq_cc(0, hz(u32::MAX as f64 + 1.0)).is_err());
    assert!(build_rx_freq_cc(0, hz(-1.0)).is_err());
    assert!(build_rx_freq_cc(0, hz(f64::NAN)).is_err());
    assert!(build_rx_freq_cc(0, hz(f64::INFINITY)).is_err());
    assert_eq!(
        build_rx_freq_cc(3, hz(-0.5)),
        Err(HpsdrError::FrequencyOutOfRange { receiver: 3 })
    );
    assert_eq!(
        build_rx_freq_cc(12, hz(-0.5)),
        Err(HpsdrError::NoFrequencyAddress { receiver: 12 })
    );
    assert!(build_rx_freq_cc(0, hz(u32::MAX as f64 + 0.25)).is_err());
}

#[test]
fn a_frequency_is_rounded_to_the_nearest_hz() {
    let cc = build_rx_freq_cc(0, hz(999.5)).unwrap();
    assert_eq!(u32::from_be_bytes([cc[1], cc[2], cc[3], cc[4]]), 1000);
    let cc = build_rx_freq_cc(0, hz(u32::MAX as f64)).unwrap();
    assert_eq!(u32::from_be_bytes([cc[1], cc[2], cc[3], cc[4]]), u32::MAX);
}

#[test]
fn the_address_is_six_bits_above_a_clear_transmit_bit() {
    assert_eq!(cc_c0(0x02), 0x04);
    assert_eq!(cc_c0(0x16), 0x2C);
    assert_eq!(cc_c0(0xFF), 0x7E);
}

#[test]
fn build_cc_packet_uses_the_real_usb_data_endpoint_2_header() {
    let frame = [0u8; USB_FRAME_LEN];
    let pkt = build_cc_packet(0x1234_5678, frame, frame);
    assert_eq!(&pkt[0..4], &[0xEF, 0xFE, 0x01, 0x02]);
    assert_eq!(&pkt[4..8], &0x1234_5678u32.to_be_bytes());
}

#[test]
fn a_control_packet_carries_both_words_in_order() {
    let a = build_cc_usb_frame([1, 2, 3, 4, 5]);
    let b = build_cc_usb_frame([6, 7, 8, 9, 10]);
    let pkt = build_cc_packet(7, a, b);
    assert_eq!(&pkt[8..16], &[0x7F, 0x7F, 0x7F, 1, 2, 3, 4, 5]);
    assert!(pkt[16..520].iter().all(|x| *x == 0));
    assert_eq!(&pkt[520..528], &[0x7F, 0x7F, 0x7F, 6, 7, 8, 9, 10]);
    assert!(pkt[528..].iter().all(|x| *x == 0));
}

#[test]
fn the_start_command_sets_the_run_bit() {
    let pkt = build_start_command();
    assert_eq!(&pkt[0..4], &[0xEF, 0xFE, 0x04, 0x01]);
    assert!(pkt[4..].iter().all(|x| *x == 0));
    assert_eq!(pkt.len(), 60);
}

#[test]
fn hpsdr_config_validate_rejects_unencodable_sample_rate() {
    let cfg = config(1, 44_100.0, vec![14_025_000.0]);
    assert!(cfg.validate().is_err());
    assert_eq!(cfg.validate(), Err(HpsdrError::UnsupportedRate));
}

#[test]
fn hpsdr_config_validate_rejects_more_than_12_receivers() {
    let cfg = config(13, 48_000.0, vec![14_025_000.0; 13]);
    assert!(cfg.validate().is_err());
    assert_eq!(cfg.validate(), Err(HpsdrError::TooManyReceivers { ddc_count: 13 }));
}

#[test]
fn config_validate_checks_center_freq_len() {
    let cfg = config(2, 192_000.0, vec![14_025_000.0]);
    assert!(cfg.validate().is_err());
    assert_eq!(cfg.validate(), Err(HpsdrError::FrequencyCount { have: 1, need: 2 }));
}

#[test]
fn config_validate_rejects_out_of_range_center_freq() {
    let cfg = config(1, 192_000.0, vec![u32::MAX as f64 + 1.0]);
    assert!(cfg.validate().is_err());
    let cfg = config(3, 48_000.0, vec![1.0, -1.0, f64::NAN]);
    assert_eq!(cfg.validate(), Err(HpsdrError::FrequencyOutOfRange { receiver: 1 }));
}

#[test]
fn config_validate_accepts_twelve_receivers() {
    assert!(config(12, 48_000.0, vec![14_025_000.0; 12]).validate().is_ok());
    assert_eq!(
        config(9, 192_000.0, Vec::new()).validate(),
        Err(HpsdrError::OverLinkBudget { ddc_count: 9 })
    );
}

#[test]
fn reads_two_ddcs_from_a_loopback_device() {
    let cfg = config(2, 192_000.0, vec![14_025_000.0, 14_030_000.0]);
    let mut dev = HpsdrDevice::open(&cfg, 0).unwrap();
    let values = [(0.2, -0.3), (-0.4, 0.6)];
    let pkt = synth_metis_packet(2, |rx| values[rx]);
    assert!(dev.needs_packet(0));
    dev.begin_pump();
    assert_eq!(dev.on_datagram(&pkt, 1_000), PumpStep::Filled);
    for rx in 0..2 {
        assert!(!dev.needs_packet(rx));
        let got = dev.read(rx, 4096);
        assert_eq!(got.len(), 72);
        assert!((scaled(got[0].i) - values[rx].0).abs() < 1e-4);
        assert!((scaled(got[0].q) - values[rx].1).abs() < 1e-4);
        assert!(dev.needs_packet(rx));
    }
    assert_eq!(dev.gap_stats(), GapStats::default());
}

#[test]
fn confirmed_live_handle_starts_false_and_flips_true_on_first_valid_packet() {
    let cfg = config(2, 192_000.0, vec![14_025_000.0, 14_030_000.0]);
    let mut dev = HpsdrDevice::open(&cfg, 0).unwrap();
    assert!(!dev.confirmed_live());
    dev.begin_pump();
    assert_eq!(dev.on_datagram(&[0xFFu8; METIS_PACKET_LEN], 1), PumpStep::Again);
    assert!(!dev.confirmed_live());
    let pkt = synth_metis_packet(2, |_| (0.1, 0.1));
    assert_eq!(dev.on_datagram(&pkt, 2), PumpStep::Filled);
    assert!(dev.confirmed_live());
}

#[test]
fn malformed_udp_packets_are_discarded_and_counted_not_fatal() {
    let cfg = config(1, 192_000.0, vec![14_025_000.0]);
    let mut dev = HpsdrDevice::open(&cfg, 0).unwrap();
    dev.begin_pump();
    assert_eq!(dev.on_datagram(&[0u8; 10], 1), PumpStep::Again);
    assert_eq!(dev.on_datagram(&[0u8; METIS_PACKET_LEN + 50], 2), PumpStep::Again);
    assert_eq!(dev.on_datagram(&[0xFFu8; METIS_PACKET_LEN], 3), PumpStep::Again);
    assert_eq!(dev.on_datagram(&[0u8; METIS_PACKET_LEN], 4), PumpStep::Again);
    let value = (0.42, -0.17);
    let pkt = synth_metis_packet(1, |_| value);
    assert_eq!(dev.on_datagram(&pkt, 5), PumpStep::Filled);
    let got = dev.read(0, 4096);
    assert!(!got.is_empty());
    assert!((scaled(got[0].i) - value.0).abs() < 1e-4);
    assert!((scaled(got[0].q) - value.1).abs() < 1e-4);
    assert_eq!(dev.gap_stats().malformed_packets, 4);
}

#[test]
fn an_oversized_datagram_with_a_valid_prefix_is_rejected_not_silently_truncated() {
    let cfg = config(1, 192_000.0, vec![14_025_000.0]);
    let mut dev = HpsdrDevice::open(&cfg, 0).unwrap();
    let mut tampered = synth_metis_packet(1, |_| (0.11, 0.22));
    tampered.extend_from_slice(&[0xAAu8; 50]);
    assert_eq!(tampered.len(), METIS_PACKET_LEN + 50);
    dev.begin_pump();
    assert_eq!(dev.on_datagram(&tampered, 1), PumpStep::Again);
    let clean_value = (-0.33, 0.44);
    let clean_pkt = synth_metis_packet(1, |_| clean_value);
    assert_eq!(dev.on_datagram(&clean_pkt, 2), PumpStep::Filled);
    let got = dev.read(0, 4096);
    assert!((scaled(got[0].i) - clean_value.0).abs() < 1e-4);
    assert_eq!(dev.gap_stats().malformed_packets, 1);
}

#[test]
fn a_sustained_flood_of_malformed_packets_eventually_gives_up_cleanly() {
    let cfg = config(1, 192_000.0, vec![14_025_000.0]);
    let mut dev = HpsdrDevice::open(&cfg, 0).unwrap();
    let garbage = [0xFFu8; METIS_PACKET_LEN];
    dev.begin_pump();
    for k in 1..MAX_CONSECUTIVE_MALFORMED {
        assert_eq!(dev.on_datagram(&garbage, k as u64), PumpStep::Again);
    }
    assert_eq!(dev.on_datagram(&garbage, 20_000), PumpStep::StalledMalformed);
    assert_eq!(dev.gap_stats().malformed_packets, MAX_CONSECUTIVE_MALFORMED as u64);
}

#[test]
fn only_silences_in_a_row_end_a_wait() {
    let cfg = config(1, 192_000.0, vec![14_025_000.0]);
    let mut dev = HpsdrDevice::open(&cfg, 0).unwrap();
    dev.begin_pump();
    for _ in 0..MAX_CONSECUTIVE_TIMEOUTS {
        assert_eq!(dev.on_timeout(), PumpStep::Again);
        assert_eq!(dev.on_datagram(&[0u8; 10], 5), PumpStep::Again);
    }
    let pkt = synth_metis_packet(1, |_| (0.1, 0.2));
    assert_eq!(dev.on_datagram(&pkt, 6), PumpStep::Filled);
    assert_eq!(dev.gap_stats().malformed_packets, 40);
    assert!(!dev.needs_packet(0));
}

#[test]
fn forty_silences_in_a_row_end_a_wait() {
    let cfg = config(1, 192_000.0, vec![14_025_000.0]);
    let mut dev = HpsdrDevice::open(&cfg, 0).unwrap();
    dev.begin_pump();
    assert_eq!(dev.on_timeout(), PumpStep::Again);
    assert_eq!(dev.on_datagram(&[0u8; 3], 5), PumpStep::Again);
    for _ in 1..MAX_CONSECUTIVE_TIMEOUTS {
        assert_eq!(dev.on_timeout(), PumpStep::Again);
    }
    assert_eq!(dev.on_timeout(), PumpStep::StalledSilent);
    dev.begin_pump();
    assert_eq!(dev.on_timeout(), PumpStep::Again);
}

#[test]
fn keepalive_sends_cc_tuning_packet_with_general_and_rx_frequency_frames() {
    let cfg = config(2, 192_000.0, vec![14_025_000.0, 14_030_000.0]);
    let mut dev = HpsdrDevice::open(&cfg, 500).unwrap();
    assert!(dev.keepalive(500 + 999_999_999).is_none());
    let cc_pkt = dev.keepalive(500 + 1_000_000_000).unwrap();
    assert_eq!(cc_pkt[2], 0x01);
    assert_eq!(cc_pkt[3], 0x02);
    let frame0 = &cc_pkt[METIS_HEADER_LEN..METIS_HEADER_LEN + USB_FRAME_LEN];
    assert_eq!(&frame0[0..3], &USB_SYNC);
    assert_eq!(frame0[3], cc_c0(0x00));
    assert_eq!(frame0[4] & 0x03, 0b10);
    assert_eq!((frame0[7] >> 3) & 0x0F, 1);
    let frame1 = &cc_pkt[METIS_HEADER_LEN + USB_FRAME_LEN..];
    assert_eq!(&frame1[0..3], &USB_SYNC);
    assert_eq!(frame1[3], cc_c0(0x02));
    let freq = u32::from_be_bytes([frame1[4], frame1[5], frame1[6], frame1[7]]);
    assert_eq!(freq, 14_025_000);
    dev.keepalive_sent(500 + 1_000_000_000);
    assert!(dev.keepalive(500 + 1_000_000_001).is_none());
    let second = dev.keepalive(500 + 2_000_000_000).unwrap();
    assert_eq!(&second[4..8], &[0, 0, 0, 1]);
    assert_eq!(second[11], cc_c0(0x03));
    assert_eq!(second[523], cc_c0(0x00));
    dev.keepalive_sent(500 + 2_000_000_000);
    let third = dev.keepalive(500 + 3_000_000_000).unwrap();
    assert_eq!(third[11], cc_c0(0x02));
    assert_eq!(third[523], cc_c0(0x03));
}

#[test]
fn a_packet_that_was_not_sent_stays_due() {
    let cfg = config(2, 192_000.0, vec![14_025_000.0, 14_030_000.0]);
    let dev = HpsdrDevice::open(&cfg, 500).unwrap();
    let first = dev.keepalive(500 + 1_000_000_000).unwrap();
    let again = dev.keepalive(500 + 1_000_000_001).unwrap();
    assert_eq!(first, again);
    assert_eq!(&again[4..8], &[0, 0, 0, 0]);
}

#[test]
fn a_round_of_packets_carries_every_word_twice() {
    let cfg = config(2, 192_000.0, vec![14_025_000.0, 14_030_000.0]);
    let mut dev = HpsdrDevice::open(&cfg, 0).unwrap();
    let mut sent = Vec::new();
    for k in 1..=3u64 {
        let pkt = dev.keepalive(k * 1_000_000_000).unwrap();
        assert_eq!(&pkt[4..8], &[0, 0, 0, (k - 1) as u8]);
        sent.push(pkt[11]);
        sent.push(pkt[523]);
        dev.keepalive_sent(k * 1_000_000_000);
    }
    let (general, one, two) = (cc_c0(0x00), cc_c0(0x02), cc_c0(0x03));
    assert_eq!(sent, vec![general, one, two, general, one, two]);
    assert_eq!(dev.keepalive(4_000_000_000).unwrap()[11], general);
}

#[test]
fn reads_may_be_split_and_leave_the_other_receiver_alone() {
    let cfg = config(2, 192_000.0, vec![14_025_000.0, 14_030_000.0]);
    let mut dev = HpsdrDevice::open(&cfg, 0).unwrap();
    let pkt = synth_metis_packet(2, |rx| if rx == 0 { (0.1, 0.2) } else { (0.3, 0.4) });
    dev.begin_pump();
    dev.on_datagram(&pkt, 1);
    assert_eq!(dev.read(0, 0).len(), 0);
    assert_eq!(dev.read(0, 50).len(), 50);
    assert_eq!(dev.read(0, 50).len(), 22);
    assert_eq!(dev.read(1, 100).len(), 72);
}

#[test]
fn a_device_is_not_opened_with_a_bad_configuration() {
    let cfg = config(1, 44_100.0, vec![14_025_000.0]);
    assert!(matches!(HpsdrDevice::open(&cfg, 0), Err(HpsdrError::UnsupportedRate)));
}
