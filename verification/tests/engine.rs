use manta::doctor::{median, DoctorReport, DoctorTally, Verdict};
use manta::dyadic::Dyadic;
use manta::events::{
    effective_sort_ts, event_kind_tier, event_sample_ts, event_track_id, sort_batch, sort_by_time,
    ClosureKind, DecoderEvent, Glyph,
};
use manta::level::{Level, Single};
use manta::lifecycle::{
    CloseCounts, CloseReason, DetectorConfig, Lifecycle, LifecycleEvent, LifecycleState,
};
use manta::manager::{merge_tracks, Closure, TrackManager};
use manta::peak::PeakHold;
use manta::report::{
    calibrate_track_meta, decode_samples, is_digital_silence, report_freq_hz, select_report_track,
    DecodeFailure, Sample,
};
use manta::track::{wrapped_channel_offset, DecoderFeed, HopObservation, Track, CHANNEL, REFINER_TAPS};

fn db(x: f32) -> Level {
    Level::from_bits(x.to_bits())
}

fn part(x: f32) -> Single {
    Single { bits: x.to_bits() }
}

fn hz(x: f64) -> Dyadic {
    Dyadic::from_bits(x.to_bits())
}

fn cfg() -> DetectorConfig {
    DetectorConfig {
        confirm_hops: 5,
        hang_hops: 10,
        gc_hops: 20,
        ..DetectorConfig::default()
    }
}

/// A hop on which only the given channels rise, each with its level and its peak.
fn hop(n: usize, strong: &[(usize, f32, Option<i32>)]) -> HopObservation {
    let mut h = HopObservation {
        power: vec![db(1e-9); n],
        rise: vec![false; n],
        drop: vec![true; n],
        snr: vec![db(-10.0); n],
        peak: vec![None; n],
    };
    for (k, snr, peak) in strong {
        h.power[*k] = db(1e-9 * 10f32.powf(snr / 10.0));
        h.rise[*k] = true;
        h.drop[*k] = false;
        h.snr[*k] = db(*snr);
        h.peak[*k] = *peak;
    }
    h
}

/// A manager past its warm-up.
fn warm(n: usize, cfg: DetectorConfig) -> TrackManager {
    let mut tm = TrackManager::new(n, cfg);
    let quiet = hop(n, &[]);
    for m in 0..cfg.warmup_hops {
        let out = tm.step_hop(&quiet, m, false);
        assert!(out.feeds.is_empty() && out.promoted.is_empty() && out.closures.is_empty());
    }
    tm
}

#[test]
fn decoder_input_bypasses_the_refiner_when_disabled() {
    let mut track = Track::new(1, 5, &cfg(), db(0.0));
    for i in 0..20 {
        let feed = track.decoder_input(5, 1000 + i, false, false, 8);
        assert_eq!(feed.channel, 5);
        assert!(!feed.refined && !feed.reset);
        assert_eq!(feed.sample_ts, 1000 + i);
    }
}

#[test]
fn decoder_input_does_not_reset_the_refiner_on_center_drift_alone() {
    let mut track = Track::new(1, 5, &cfg(), db(0.0));
    assert!(track.decoder_input(5, 0, true, false, 8).reset);
    for i in 1..40u64 {
        track.update_centroid(5, Some(400_000_000), 8);
        let feed = track.decoder_input(5, i * 512, true, false, 8);
        assert!(!feed.reset);
        assert_eq!(feed.centroid, 5);
        assert_eq!(feed.delta, track.center() - 5 * CHANNEL);
        assert_eq!(feed.refined, i + 1 >= REFINER_TAPS);
    }
    assert!(track.center() > 5 * CHANNEL);
}

#[test]
fn decoder_input_resets_on_a_real_channel_change() {
    let mut track = Track::new(1, 5, &cfg(), db(0.0));
    track.decoder_input(5, 0, true, false, 8);
    for i in 1..=REFINER_TAPS {
        assert!(!track.decoder_input(5, i * 512, true, false, 8).reset);
    }
    assert!(track.decoder_input(5, 9, true, false, 8).refined);
    while track.center() < 5 * CHANNEL + CHANNEL / 2 {
        track.update_centroid(6, Some(0), 8);
    }
    let feed = track.decoder_input(5, 1024, true, false, 8);
    assert!(feed.reset);
    assert!(!feed.refined);
    assert_eq!(feed.centroid, 6);
}

#[test]
fn decoder_input_reports_each_hops_own_sample_ts_with_no_delay_compensation() {
    let mut track = Track::new(1, 5, &cfg(), db(0.0));
    for i in 0..30u64 {
        let sample_ts = 1000 + i * 512;
        assert_eq!(track.decoder_input(5, sample_ts, true, false, 8).sample_ts, sample_ts);
    }
}

/// Hops by which the refiner's output lags.
const GROUP_DELAY_HOPS: u64 = 5;

/// The amplitude that a feed stands for on a hop with the given samples, where the refiner
/// would give `refined`.
fn amplitude(feed: &DecoderFeed, x: &[(f32, f32)], refined: f32) -> f32 {
    if feed.refined {
        refined
    } else {
        let (re, im) = x[feed.centroid];
        (re * re + im * im).sqrt()
    }
}

#[test]
fn decoder_input_reports_raw_magnitude_during_warm_up_not_the_fir_ramp_in() {
    let mut track = Track::new(1, 5, &cfg(), db(0.0));
    let x = [(3.0, 4.0); 8];
    for i in 0..GROUP_DELAY_HOPS {
        let feed = track.decoder_input(5, i * 512, true, false, 8);
        assert_eq!(amplitude(&feed, &x, -1.0), 5.0);
    }
}

#[test]
fn decoder_input_warm_up_does_not_replay_the_first_observation_as_later_hops() {
    let mut track = Track::new(1, 5, &cfg(), db(0.0));
    let (loud, quiet) = ([(3.0, 4.0); 8], [(0.03, 0.04); 8]);
    let feed = track.decoder_input(5, 0, true, false, 8);
    assert_eq!(amplitude(&feed, &loud, -1.0), 5.0);
    for i in 1..GROUP_DELAY_HOPS {
        let feed = track.decoder_input(5, i * 512, true, false, 8);
        assert_eq!(feed.sample_ts, i * 512);
        assert_eq!(amplitude(&feed, &quiet, -1.0), 0.05);
    }
}

#[test]
fn decoder_input_withholds_refined_amp_until_the_fir_is_fully_converged() {
    let mut track = Track::new(1, 5, &cfg(), db(0.0));
    for i in 1..REFINER_TAPS {
        assert!(!track.decoder_input(5, i * 512, true, false, 8).refined);
    }
    assert!(track.decoder_input(5, 0, true, false, 8).refined);
    assert!(track.decoder_input(5, 0, true, false, 8).refined);
}

#[test]
fn decoder_input_raw_power_uses_the_owned_channel_k_even_when_it_differs_from_the_centroid() {
    let mut track = Track::new(1, 5, &cfg(), db(0.0));
    let feed = track.decoder_input(6, 0, true, false, 8);
    assert_eq!(feed.channel, 6);
    assert_eq!(feed.centroid, 5);
}

#[test]
fn a_position_follows_the_peak_by_a_hundredth() {
    let mut track = Track::new(1, 10, &cfg(), db(0.0));
    track.update_centroid(10, Some(500_000_000), 64);
    assert_eq!(track.center(), 10 * CHANNEL + 5_000_000);
    track.update_centroid(10, None, 64);
    assert_eq!(track.center(), 10 * CHANNEL + 5_000_000);
    track.update_centroid(9, Some(0), 64);
    assert_eq!(track.center(), 10 * CHANNEL + 5_000_000 - 10_050_000);
}

#[test]
fn channels_are_a_circle_around_the_center() {
    assert_eq!(wrapped_channel_offset(0, 64), 0);
    assert_eq!(wrapped_channel_offset(31, 64), 31);
    assert_eq!(wrapped_channel_offset(32, 64), -32);
    assert_eq!(wrapped_channel_offset(63, 64), -1);
    let track = Track::new(1, 0, &cfg(), db(0.0));
    assert_eq!(track.owned(64), (63, 0, 1));
    let last = Track::new(1, 63, &cfg(), db(0.0));
    assert_eq!(last.owned(64), (62, 63, 0));
    assert_eq!(last.freq_offset(64), -CHANNEL);
}

#[test]
fn promotes_after_confirm_hops_of_sustained_rise() {
    let mut lc = Lifecycle::new(&cfg());
    for _ in 0..3 {
        assert_eq!(lc.on_hop(true, false, false), LifecycleEvent::Unchanged);
    }
    assert_eq!(lc.on_hop(true, false, false), LifecycleEvent::Promoted);
    assert_eq!(lc.state(), LifecycleState::Active);
}

#[test]
fn candidate_closes_unconfirmed_on_any_non_rise_hop() {
    let mut lc = Lifecycle::new(&cfg());
    assert_eq!(lc.on_hop(true, false, false), LifecycleEvent::Unchanged);
    assert_eq!(
        lc.on_hop(false, true, false),
        LifecycleEvent::Closed(CloseReason::Unconfirmed)
    );
}

#[test]
fn active_to_hang_to_active_resets_hang_timer() {
    let mut lc = Lifecycle::new(&cfg());
    for _ in 0..3 {
        lc.on_hop(true, false, false);
    }
    assert_eq!(lc.on_hop(true, false, false), LifecycleEvent::Promoted);
    assert_eq!(lc.on_hop(false, true, true), LifecycleEvent::Unchanged);
    assert_eq!(lc.state(), LifecycleState::Hang);
    for _ in 0..8 {
        assert_eq!(lc.on_hop(false, true, true), LifecycleEvent::Unchanged);
    }
    assert_eq!(lc.on_hop(true, false, true), LifecycleEvent::Unchanged);
    assert_eq!(lc.state(), LifecycleState::Active);
}

#[test]
fn hang_expires_after_hang_hops() {
    let mut lc = Lifecycle::new(&cfg());
    for _ in 0..3 {
        lc.on_hop(true, false, false);
    }
    lc.on_hop(true, false, false);
    lc.on_hop(false, true, true);
    for _ in 0..8 {
        assert_eq!(lc.on_hop(false, true, true), LifecycleEvent::Unchanged);
    }
    assert_eq!(
        lc.on_hop(false, true, true),
        LifecycleEvent::Closed(CloseReason::HangExpired)
    );
}

#[test]
fn garbage_collected_after_gc_hops_silent() {
    let mut lc = Lifecycle::new(&cfg());
    for _ in 0..3 {
        lc.on_hop(true, false, false);
    }
    lc.on_hop(true, false, false);
    for _ in 0..19 {
        assert_eq!(lc.on_hop(true, false, false), LifecycleEvent::Unchanged);
    }
    assert_eq!(
        lc.on_hop(true, false, false),
        LifecycleEvent::Closed(CloseReason::Silent)
    );
}

#[test]
fn char_emission_resets_silent_counter() {
    let mut lc = Lifecycle::new(&cfg());
    for _ in 0..3 {
        lc.on_hop(true, false, false);
    }
    lc.on_hop(true, false, false);
    for _ in 0..19 {
        lc.on_hop(true, false, false);
    }
    assert_eq!(lc.on_hop(true, false, true), LifecycleEvent::Unchanged);
    for _ in 0..19 {
        assert_eq!(lc.on_hop(true, false, false), LifecycleEvent::Unchanged);
    }
}

#[test]
fn a_decoded_character_noted_between_hops_resets_the_silent_counter() {
    let mut lc = Lifecycle::new(&cfg());
    for _ in 0..4 {
        lc.on_hop(true, false, false);
    }
    for _ in 0..19 {
        lc.on_hop(true, false, false);
    }
    lc.note_char_decoded();
    for _ in 0..19 {
        assert_eq!(lc.on_hop(true, false, false), LifecycleEvent::Unchanged);
    }
    assert_eq!(
        lc.on_hop(true, false, false),
        LifecycleEvent::Closed(CloseReason::Silent)
    );
}

#[test]
fn closures_are_counted_by_reason() {
    let mut counts = CloseCounts::default();
    counts.record(CloseReason::Merged);
    counts.record(CloseReason::Evicted);
    counts.record(CloseReason::Evicted);
    counts.record(CloseReason::Silent);
    counts.record(CloseReason::HangExpired);
    counts.record(CloseReason::Unconfirmed);
    assert_eq!(
        counts,
        CloseCounts { unconfirmed: 1, hang_expired: 1, silent: 1, merged: 1, evicted: 2 }
    );
}

#[test]
fn spawns_and_promotes_a_track_on_a_strong_channel() {
    let mut tm = warm(64, DetectorConfig::default());
    let strong = hop(64, &[(10, 20.0, None)]);
    let mut promoted_after = 0;
    for m in 1..60u64 {
        let out = tm.step_hop(&strong, m, false);
        if !out.promoted.is_empty() {
            promoted_after = m;
            break;
        }
    }
    assert_eq!(promoted_after, 19);
    assert_eq!(tm.active_track_count(), 1);
    assert_eq!(tm.decoding_track_count(), 1);
}

#[test]
fn step_hop_emits_track_promoted_at_the_promotion_hop() {
    let mut tm = warm(64, DetectorConfig::default());
    let strong = hop(64, &[(10, 20.0, None)]);
    for m in 1..19u64 {
        let out = tm.step_hop(&strong, m * 512, false);
        assert!(out.promoted.is_empty());
        assert!(out.feeds.is_empty());
    }
    let out = tm.step_hop(&strong, 19 * 512, false);
    assert_eq!(
        out.promoted,
        vec![DecoderEvent::TrackPromoted {
            track_id: 1,
            sample_ts: 19 * 512,
            offset: 10 * CHANNEL,
        }]
    );
    assert_eq!(out.feeds.len(), 1);
    assert!(out.feeds[0].leased);
    let out = tm.step_hop(&strong, 20 * 512, false);
    assert!(out.promoted.is_empty());
    assert!(!out.feeds[0].leased);
}

#[test]
fn no_track_is_born_during_the_warm_up() {
    let mut tm = TrackManager::new(16, DetectorConfig { warmup_hops: 3, ..cfg() });
    let strong = hop(16, &[(4, 20.0, None)]);
    for m in 0..3 {
        tm.step_hop(&strong, m, false);
        assert_eq!(tm.active_track_count(), 0);
    }
    tm.step_hop(&strong, 3, false);
    assert_eq!(tm.active_track_count(), 1);
}

#[test]
fn silent_close_starts_a_respawn_cooldown_on_that_channel() {
    let n = 64;
    let mut tm = warm(n, DetectorConfig::default());
    let strong = hop(n, &[(10, 20.0, None)]);
    let mut m = 0u64;
    let mut promotions = 0;
    let mut closures = Vec::new();
    for _ in 0..12_000 {
        let out = tm.step_hop(&strong, m, false);
        promotions += out.promoted.len();
        closures.extend(out.closures);
        m += 1;
        if promotions > 0 && tm.active_track_count() == 0 {
            break;
        }
    }
    assert_eq!(promotions, 1);
    assert_eq!(tm.active_track_count(), 0);
    assert_eq!(
        closures,
        vec![Closure {
            track_id: 1,
            kind: ClosureKind::Bookkeeping { survivor_track_id: None },
            forced: false,
            reported: false,
        }]
    );
    assert_eq!(tm.close_counts().silent, 1);
    for _ in 0..30 {
        assert!(tm.step_hop(&strong, m, false).promoted.is_empty());
        m += 1;
    }
    let mut repromoted = false;
    for _ in 0..(11_250 + 150) {
        if !tm.step_hop(&strong, m, false).promoted.is_empty() {
            repromoted = true;
            break;
        }
        m += 1;
    }
    assert!(repromoted);
}

#[test]
fn respawn_cooldown_clears_once_the_channel_actually_goes_quiet() {
    let n = 64;
    let mut tm = warm(n, DetectorConfig::default());
    let strong = hop(n, &[(10, 20.0, None)]);
    let quiet = hop(n, &[]);
    let mut m = 0u64;
    let mut promotions = 0;
    for _ in 0..12_000 {
        promotions += tm.step_hop(&strong, m, false).promoted.len();
        m += 1;
        if promotions > 0 && tm.active_track_count() == 0 {
            break;
        }
    }
    assert_eq!(promotions, 1);
    assert_eq!(tm.active_track_count(), 0);
    for _ in 0..40 {
        tm.step_hop(&quiet, m, false);
        m += 1;
    }
    let mut repromoted = false;
    for _ in 0..60 {
        if !tm.step_hop(&strong, m, false).promoted.is_empty() {
            repromoted = true;
            break;
        }
        m += 1;
    }
    assert!(repromoted);
}

#[test]
fn spectral_ref_power_centers_on_the_centroid_not_the_flickering_owned_channel() {
    let n = 64;
    let mut tm = warm(n, DetectorConfig::default());
    let strong = hop(n, &[(10, 20.0, None)]);
    for m in 0..30 {
        tm.step_hop(&strong, m, true);
    }
    let flicker = hop(n, &[(10, 50.0, None), (11, 60.0, None)]);
    let out = tm.step_hop(&flicker, 30, true);
    assert_eq!(out.feeds[0].channel, 11);
    assert_eq!(out.feeds[0].centroid, 10);
}

#[test]
fn adjacent_strong_channel_is_absorbed_not_a_new_track() {
    let mut tm = warm(64, DetectorConfig::default());
    let strong = hop(64, &[(10, 20.0, None), (11, 15.0, None)]);
    for m in 0..25 {
        tm.step_hop(&strong, m, false);
    }
    assert_eq!(tm.active_track_count(), 1);
}

#[test]
fn two_well_separated_strong_channels_yield_two_tracks() {
    let mut tm = warm(64, DetectorConfig::default());
    let strong = hop(64, &[(10, 20.0, None), (40, 20.0, None)]);
    for m in 0..25 {
        tm.step_hop(&strong, m, false);
    }
    assert_eq!(tm.active_track_count(), 2);
}

#[test]
fn track_cap_evicts_lowest_snr() {
    let mut tm = warm(64, DetectorConfig { track_cap: 1, ..DetectorConfig::default() });
    let first = hop(64, &[(10, 20.0, None)]);
    for m in 0..25 {
        tm.step_hop(&first, m, false);
    }
    assert_eq!(tm.active_track_count(), 1);
    let both = hop(64, &[(10, 20.0, None), (40, 25.0, None)]);
    let mut evicted = Vec::new();
    let mut promoted = Vec::new();
    for m in 25..50 {
        let out = tm.step_hop(&both, m, false);
        evicted.extend(out.closures);
        promoted.extend(out.promoted);
        assert_eq!(tm.active_track_count(), 1);
    }
    assert_eq!(evicted[0].track_id, 1);
    assert_eq!(evicted[0].kind, ClosureKind::Bookkeeping { survivor_track_id: None });
    assert!(!evicted[0].forced);
    assert!(promoted.iter().all(|e| matches!(
        e,
        DecoderEvent::TrackPromoted { track_id: 2, offset, .. } if *offset == -24 * CHANNEL
    )));
    assert_eq!(promoted.len(), 1);
    assert!(tm.close_counts().evicted >= 1);
}

/// A track at `center`, in billionths of a channel, that has reported something.
fn track_at(id: u32, center: i64, snr: f32) -> Track {
    let channel = (center / CHANNEL) as usize;
    let mut track = Track::new(id, channel, &cfg(), db(snr));
    while track.center() < center {
        let step = (center - track.center()).min(12_000_000);
        let off = track.center() - channel as i64 * CHANNEL;
        track.update_centroid(channel, Some((100 * step + off) as i32), 64);
    }
    track.note_emitted(false);
    track
}

#[test]
fn tracks_in_a_chain_live_on_in_the_one_that_stays_open() {
    let chain = vec![
        track_at(1, 10_000_000_000, 5.0),
        track_at(2, 10_500_000_000, 3.0),
        track_at(3, 10_900_000_000, 9.0),
    ];
    let (kept, closures) = merge_tracks(&chain);
    assert_eq!(kept.iter().map(|t| t.id()).collect::<Vec<u32>>(), vec![3]);
    let names: Vec<(u32, ClosureKind)> = closures.iter().map(|c| (c.track_id, c.kind)).collect();
    let lives_on = ClosureKind::Bookkeeping { survivor_track_id: Some(3) };
    assert_eq!(names, vec![(2, lives_on), (1, lives_on)]);
    assert!(closures.iter().all(|c| c.reported && !c.forced));
}

#[test]
fn merge_closes_the_lower_snr_track_when_centers_converge() {
    let weak = track_at(1, 20_400_000_000, 8.0);
    let strong = track_at(2, 21_100_000_000, 18.0);
    let (kept, closures) = merge_tracks(&vec![weak, strong]);
    assert_eq!(kept.len(), 1);
    assert_eq!(kept[0].current_snr(), db(18.0));
    assert_eq!(kept[0].center(), 21_100_000_000);
    assert_eq!(closures.len(), 1);

    let mut tm = warm(64, DetectorConfig::default());
    let apart = hop(
        64,
        &[(20, 8.0, Some(400_000_000)), (22, 18.0, Some(-900_000_000))],
    );
    let mut closures = Vec::new();
    for m in 0..400 {
        let out = tm.step_hop(&apart, m, false);
        closures.extend(out.closures);
        if !closures.is_empty() {
            break;
        }
        assert_eq!(tm.active_track_count(), 2);
    }
    assert_eq!(
        closures,
        vec![Closure {
            track_id: 1,
            kind: ClosureKind::Bookkeeping { survivor_track_id: Some(2) },
            forced: false,
            reported: false,
        }]
    );
    assert_eq!(tm.active_track_count(), 1);
    assert_eq!(tm.close_counts().merged, 1);
}

#[test]
fn a_closed_track_that_has_spoken_is_reported() {
    let n = 16;
    let mut tm = warm(n, DetectorConfig { hang_hops: 3, ..cfg() });
    let strong = hop(n, &[(4, 20.0, None)]);
    for m in 0..5 {
        tm.step_hop(&strong, m, false);
    }
    let none: Vec<DecoderEvent> = Vec::new();
    let spoken = vec![ch(1, 100)];
    tm.process_hops(&spoken, &none, &none, &Vec::new());
    let quiet = hop(n, &[]);
    let mut closures = Vec::new();
    for m in 5..10 {
        closures.extend(tm.step_hop(&quiet, m, false).closures);
    }
    assert_eq!(closures.len(), 1);
    assert!(closures[0].reported && closures[0].forced);
    let events = tm.process_hops(&none, &none, &vec![ch(1, 900)], &closures);
    assert!(events.contains(&DecoderEvent::TrackClosed {
        track_id: 1,
        closure: ClosureKind::SignalEnded,
    }));
    assert_eq!(events.len(), 2);
    assert_eq!(tm.close_counts().hang_expired, 1);
}

#[test]
fn every_decoder_is_fed_on_every_hop_also_in_hang() {
    let n = 16;
    let mut tm = warm(n, cfg());
    let strong = hop(n, &[(4, 20.0, None)]);
    for m in 0..5 {
        tm.step_hop(&strong, m, false);
    }
    let quiet = hop(n, &[]);
    for m in 5..12 {
        let out = tm.step_hop(&quiet, m, false);
        assert_eq!(out.feeds.len(), 1);
        assert_eq!(out.feeds[0].sample_ts, m);
    }
}

fn meta(track_id: u32) -> DecoderEvent {
    meta_at(track_id, 0)
}

fn meta_at(track_id: u32, sample_ts: u64) -> DecoderEvent {
    DecoderEvent::TrackMeta {
        track_id,
        sample_ts,
        snr_2500_db: db(20.0),
        freq_hz: hz(14_000.0),
    }
}

fn ch(track_id: u32, sample_ts: u64) -> DecoderEvent {
    DecoderEvent::CharDecoded {
        track_id,
        sample_ts,
        glyph: Glyph::Char('A'),
        confidence: db(0.9),
    }
}

fn promoted(track_id: u32, sample_ts: u64) -> DecoderEvent {
    DecoderEvent::TrackPromoted { track_id, sample_ts, offset: 131 * CHANNEL }
}

fn speed(track_id: u32) -> DecoderEvent {
    DecoderEvent::SpeedUpdate { track_id, wpm: db(20.0) }
}

fn sort_like_process_hops(events: &Vec<DecoderEvent>) -> Vec<DecoderEvent> {
    let births = events
        .iter()
        .filter(|e| matches!(e, DecoderEvent::TrackPromoted { .. }))
        .copied()
        .collect();
    sort_batch(events, &births)
}

#[test]
fn sort_preserves_cross_track_chronological_order() {
    let events = sort_like_process_hops(&vec![promoted(2, 100), ch(1, 50)]);
    assert_eq!(events, vec![ch(1, 50), promoted(2, 100)]);
}

#[test]
fn sort_puts_a_promotion_before_its_own_tracks_pinned_events() {
    let events = sort_like_process_hops(&vec![speed(5), promoted(5, 5000)]);
    assert!(matches!(events[0], DecoderEvent::TrackPromoted { .. }));
}

#[test]
fn sort_does_not_jump_a_promotion_across_an_earlier_unrelated_track_event() {
    let events = sort_like_process_hops(&vec![speed(2), ch(1, 50), promoted(2, 100)]);
    assert_eq!(events, vec![ch(1, 50), promoted(2, 100), speed(2)]);
}

#[test]
fn sort_breaks_ties_by_track_id_before_kind() {
    let events = sort_like_process_hops(&vec![promoted(2, 100), ch(1, 100)]);
    assert!(matches!(events[0], DecoderEvent::CharDecoded { track_id: 1, .. }));
}

#[test]
fn sorting_keeps_the_order_of_equals() {
    let a = DecoderEvent::SpeedUpdate { track_id: 3, wpm: db(1.0) };
    let b = DecoderEvent::SpeedUpdate { track_id: 3, wpm: db(2.0) };
    let c = DecoderEvent::SpeedUpdate { track_id: 2, wpm: db(3.0) };
    assert_eq!(sort_batch(&vec![a, b, c], &Vec::new()), vec![c, a, b]);
    assert_eq!(sort_by_time(&vec![ch(4, 9), ch(3, 9), ch(5, 1)]), vec![
        ch(5, 1),
        ch(3, 9),
        ch(4, 9),
    ]);
}

#[test]
fn speeds_borrow_the_time_of_their_promotion() {
    let births = vec![promoted(7, 500)];
    assert_eq!(effective_sort_ts(&speed(7), &births), 500);
    assert_eq!(effective_sort_ts(&speed(8), &births), 0);
    assert_eq!(effective_sort_ts(&meta_at(7, 800), &births), 800);
    assert_eq!(effective_sort_ts(&ch(7, 3), &births), 3);
    assert_eq!(event_sample_ts(&promoted(7, 500)), 500);
    assert_eq!(event_track_id(&speed(9)), 9);
    assert_eq!(event_kind_tier(&promoted(1, 1)), 0);
    assert_eq!(event_kind_tier(&ch(1, 1)), 1);
}

#[test]
fn process_hops_orders_track_promoted_before_same_batch_decoder_updates() {
    let n = 16;
    let mut tm = warm(n, cfg());
    let strong = hop(n, &[(4, 20.0, None)]);
    let mut births = Vec::new();
    for m in 0..30 {
        births.extend(tm.step_hop(&strong, m * 512, false).promoted);
    }
    let pool = vec![ch(1, 9_000), speed(1), meta_at(1, 8_000)];
    let events = tm.process_hops(&pool, &births, &Vec::new(), &Vec::new());
    assert_eq!(events.len(), 4);
    assert!(matches!(events[0], DecoderEvent::TrackPromoted { .. }));
    assert_eq!(events[1..], [speed(1), meta_at(1, 8_000), ch(1, 9_000)]);
}

#[test]
fn track_data_comes_after_the_characters_before_it() {
    let mut tm = warm(16, cfg());
    let none: Vec<DecoderEvent> = Vec::new();
    let pool = vec![meta_at(1, 100), ch(1, 50), ch(1, 150)];
    let events = tm.process_hops(&pool, &none, &none, &Vec::new());
    assert_eq!(events, vec![ch(1, 50), meta_at(1, 100), ch(1, 150)]);
}

#[test]
fn finish_orders_track_closed_after_every_other_event_for_that_track() {
    let n = 64;
    let mut tm = warm(n, cfg());
    let strong = hop(n, &[(10, 20.0, None), (40, 20.0, None), (50, 20.0, None)]);
    for m in 0..6 {
        tm.step_hop(&strong, m, false);
    }
    let none: Vec<DecoderEvent> = Vec::new();
    tm.process_hops(&vec![speed(2)], &none, &none, &Vec::new());
    let flushed = vec![ch(1, 900), speed(1), DecoderEvent::WordBoundary { track_id: 1, sample_ts: 950 }];
    let events = tm.finish(&flushed);
    let mut closed = Vec::new();
    for e in &events {
        let id = event_track_id(e);
        if matches!(e, DecoderEvent::TrackClosed { .. }) {
            closed.push(id);
        } else {
            assert!(!closed.contains(&id));
        }
    }
    closed.sort();
    // The third track never reported anything, so its end is not reported either.
    assert_eq!(closed, vec![1, 2]);
    assert_eq!(tm.active_track_count(), 0);
}

/// Runs a manager over hops in batches, with decoders that report their track every ten hops
/// and a character in between, and gives the levels that they reported.
fn reported_levels(snrs: &Vec<f32>, batch: usize) -> Vec<Level> {
    let n = 16;
    let mut tm = warm(n, cfg());
    let mut holds: Vec<(u32, PeakHold, u64)> = Vec::new();
    let mut reported = Vec::new();
    let mut ts = 0;
    for part in snrs.chunks(batch) {
        let (mut births, mut pool, mut closures) = (Vec::new(), Vec::new(), Vec::new());
        for snr in part {
            let out = tm.step_hop(&hop(n, &[(4, *snr, None), (9, 30.0 - *snr, None)]), ts, false);
            ts += 512;
            for f in out.feeds {
                if f.leased {
                    holds.push((f.track_id, PeakHold::new(), 0));
                }
                let (_, hold, count) = holds.iter_mut().find(|h| h.0 == f.track_id).unwrap();
                let peak = hold.observe(f.snr);
                *count += 1;
                if *count % 10 == 0 {
                    pool.push(DecoderEvent::TrackMeta {
                        track_id: f.track_id,
                        sample_ts: f.sample_ts,
                        snr_2500_db: peak,
                        freq_hz: hz(14_000.0),
                    });
                } else if *count % 10 == 5 {
                    pool.push(ch(f.track_id, f.sample_ts));
                }
                hold.note_push(*count, 10);
            }
            births.extend(out.promoted);
            closures.extend(out.closures);
        }
        for e in tm.process_hops(&pool, &births, &Vec::new(), &closures) {
            if let DecoderEvent::TrackMeta { snr_2500_db, .. } = e {
                reported.push(snr_2500_db);
            }
        }
    }
    reported
}

#[test]
fn track_meta_snr_is_invariant_to_process_hops_chunk_size() {
    let snrs: Vec<f32> = (0..80).map(|i| 10.0 + ((i * 7) % 11) as f32).collect();
    let whole = reported_levels(&snrs, 8);
    assert_eq!(whole.len(), 14);
    assert_eq!(whole, reported_levels(&snrs, 4));
    assert_eq!(whole, reported_levels(&snrs, 1));
    assert_eq!(whole[0], db(19.0));
}

#[test]
fn a_low_first_level_counts() {
    let mut hold = PeakHold::new();
    assert_eq!(hold.observe(db(-30.0)), db(-30.0));
    assert_eq!(hold.observe(db(-40.0)), db(-30.0));
    hold.note_push(2, 2);
    assert_eq!(hold.observe(db(-40.0)), db(-40.0));
}

#[test]
fn report_track_is_the_one_that_decoded_not_the_lowest_id() {
    let events = vec![meta(6), meta(6), ch(16, 100), ch(16, 200), meta(16)];
    assert_eq!(select_report_track(&events), 16);
}

#[test]
fn report_track_ties_break_to_the_lowest_id() {
    assert_eq!(select_report_track(&vec![meta(9), meta(4), meta(7)]), 4);
    assert_eq!(select_report_track(&vec![ch(9, 1), ch(4, 2), meta(7)]), 4);
}

#[test]
fn report_track_ranks_only_glyphs_that_render_into_text() {
    let prosign = |track_id: u32, sample_ts: u64| DecoderEvent::CharDecoded {
        track_id,
        sample_ts,
        glyph: Glyph::Prosign(0),
        confidence: db(0.9),
    };
    let events = vec![prosign(3, 10), prosign(3, 20), prosign(3, 30), ch(7, 100), meta(7)];
    assert_eq!(select_report_track(&events), 7);
    assert_eq!(Glyph::Prosign(0).text_char(), None);
    assert_eq!(Glyph::Char('A').text_char(), Some('A'));
}

#[test]
fn report_freq_falls_back_to_another_tracks_metadata_before_the_center() {
    let events = vec![meta(6), ch(16, 100), ch(16, 200)];
    let selected = select_report_track(&events);
    assert_eq!(selected, 16);
    let this_track: Vec<DecoderEvent> = events
        .iter()
        .filter(|e| event_track_id(e) == selected)
        .copied()
        .collect();
    assert!(this_track.iter().all(|e| !matches!(e, DecoderEvent::TrackMeta { .. })));
    assert_eq!(report_freq_hz(&this_track, &events, hz(7_000.0)), hz(14_000.0));
}

#[test]
fn report_freq_prefers_the_selected_tracks_own_metadata() {
    let other = DecoderEvent::TrackMeta {
        track_id: 6,
        sample_ts: 0,
        snr_2500_db: db(20.0),
        freq_hz: hz(1_000.0),
    };
    let events = vec![other, meta(16), ch(16, 100)];
    let this_track = vec![meta(16), ch(16, 100)];
    assert_eq!(report_freq_hz(&this_track, &events, hz(7_000.0)), hz(14_000.0));
    assert_eq!(report_freq_hz(&Vec::new(), &Vec::new(), hz(7_000.0)), hz(7_000.0));
}

#[test]
fn report_track_selection_is_order_independent() {
    let mut events = vec![meta(6), ch(16, 100), ch(16, 200), meta(6), meta(16)];
    let first = select_report_track(&events);
    events.reverse();
    assert_eq!(select_report_track(&events), first);
}

#[test]
fn silence_errors_cleanly() {
    let zero = Sample { re: part(0.0), im: part(-0.0) };
    let silent = vec![zero; 96_000];
    assert!(is_digital_silence(&silent));
    assert!(matches!(
        decode_samples(&silent, 100, 0, &Vec::new(), hz(0.0)),
        Err(DecodeFailure::DigitalSilence)
    ));
}

#[test]
fn a_run_without_events_says_why() {
    let noise = vec![Sample { re: part(0.1), im: part(0.0) }];
    assert!(!is_digital_silence(&noise));
    let none = Vec::new();
    assert!(matches!(
        decode_samples(&noise, 0, 0, &none, hz(0.0)),
        Err(DecodeFailure::TooShort)
    ));
    assert!(matches!(
        decode_samples(&noise, 5, 0, &none, hz(0.0)),
        Err(DecodeFailure::NothingPromoted { total_hops: 5 })
    ));
    assert!(matches!(
        decode_samples(&noise, 5, 2, &none, hz(0.0)),
        Err(DecodeFailure::NothingDecoded { total_hops: 5, promoted: 2 })
    ));
}

#[test]
fn promoted_but_silent_input_is_not_reported_as_a_detector_threshold_miss() {
    let n = 64;
    let cfg = DetectorConfig::default();
    let mut tm = warm(n, cfg);
    let mut births = 0;
    let mut hops = cfg.warmup_hops;
    // A carrier that ends two and a half seconds into the run, at 375 hops a second.
    let carrier = hop(n, &[(10, 30.0, None)]);
    while hops < 937 {
        births += tm.step_hop(&carrier, hops * 256, false).promoted.len() as u64;
        hops += 1;
    }
    let events = tm.finish(&Vec::new());
    assert!(events.is_empty());
    let samples = vec![Sample { re: part(1.0), im: part(0.0) }];
    let err = decode_samples(&samples, hops, births, &events, hz(0.0)).err().unwrap();
    assert!(matches!(err, DecodeFailure::NothingDecoded { total_hops: 937, promoted: 1 }));
}

#[test]
fn noise_only_input_is_reported_as_a_detector_outcome() {
    let n = 64;
    let mut tm = TrackManager::new(n, DetectorConfig::default());
    let mut births = 0;
    for m in 0..1875 {
        births += tm.step_hop(&hop(n, &[]), m * 256, false).promoted.len() as u64;
    }
    let events = tm.finish(&Vec::new());
    let samples = vec![Sample { re: part(1.0), im: part(0.0) }];
    let err = decode_samples(&samples, 1875, births, &events, hz(0.0)).err().unwrap();
    assert!(matches!(err, DecodeFailure::NothingPromoted { total_hops: 1875 }));
}

#[test]
fn a_run_reports_the_track_that_speaks_for_it() {
    let noise = vec![Sample { re: part(0.1), im: part(0.0) }];
    let events = vec![meta(6), ch(16, 100), speed(16), ch(6, 1), ch(16, 200)];
    let report = decode_samples(&noise, 5, 2, &events, hz(7_000.0)).unwrap();
    assert_eq!(report.track_id, 16);
    assert_eq!(report.freq_hz, hz(14_000.0));
    assert_eq!(report.wpm, Some(db(20.0)));
    assert_eq!(report.this_track, vec![ch(16, 100), speed(16), ch(16, 200)]);
}

#[test]
fn calibration_touches_track_data_only() {
    let moved = calibrate_track_meta(&meta(3), hz(14_001.0));
    assert!(matches!(
        moved,
        DecoderEvent::TrackMeta { track_id: 3, freq_hz, .. } if freq_hz == hz(14_001.0)
    ));
    assert_eq!(calibrate_track_meta(&ch(3, 1), hz(14_001.0)), ch(3, 1));
}

fn doctor_report(lowest: f32, highest: f32, middle: f32, chars: usize, distinct: usize) -> DoctorReport {
    DoctorReport {
        sample_rate_hz: hz(192_000.0),
        center_freq_hz: hz(14_025_000.0),
        duration_ns: 10_000_000_000,
        track_meta_count: 5,
        tracks_closed: 3,
        snr_db_min: Some(db(lowest)),
        snr_db_max: Some(db(highest)),
        snr_db_median: Some(db(middle)),
        chars_decoded: chars,
        distinct_chars: distinct,
        spots_confirmed: 0,
    }
}

#[test]
fn verdict_classifies_noisy_no_decode_below_the_noise_floor_threshold() {
    assert_eq!(doctor_report(-8.0, -1.0, -6.0, 50, 2).verdict(), Verdict::NoisyNoDecode);
    assert_eq!(doctor_report(-8.0, 1.0, 0.0, 50, 2).verdict(), Verdict::NoisyNoDecode);
}

#[test]
fn verdict_classifies_weak_no_decode_above_the_noise_floor_threshold() {
    assert_eq!(doctor_report(5.0, 15.0, 10.0, 200, 20).verdict(), Verdict::WeakNoDecode);
}

#[test]
fn doctor_reports_no_signal_on_digital_silence() {
    let report = DoctorTally::new().report(hz(48_000.0), hz(0.0), 1_000_000_000);
    assert_eq!(report.verdict(), Verdict::NoSignal);
    assert_eq!(report.track_meta_count, 0);
    assert_eq!(report.spots_confirmed, 0);
    assert_eq!(report.snr_db_median, None);
    assert!(report.verdict().summary().starts_with("NO_SIGNAL"));
}

#[test]
fn doctor_tabulates_what_it_hears() {
    let mut tally = DoctorTally::new();
    for snr in [3.0, -2.0, 8.0, 5.0] {
        tally.on_event(&DecoderEvent::TrackMeta {
            track_id: 1,
            sample_ts: 0,
            snr_2500_db: db(snr),
            freq_hz: hz(0.0),
        });
    }
    tally.on_event(&ch(1, 1));
    tally.on_event(&ch(1, 2));
    tally.on_event(&DecoderEvent::CharDecoded {
        track_id: 1,
        sample_ts: 3,
        glyph: Glyph::Prosign(2),
        confidence: db(1.0),
    });
    tally.on_event(&speed(1));
    tally.on_event(&DecoderEvent::TrackClosed {
        track_id: 1,
        closure: ClosureKind::SignalEnded,
    });
    tally.on_spot();
    let report = tally.report(hz(192_000.0), hz(14_025_000.0), 5);
    assert_eq!(report.verdict(), Verdict::Decoding);
    assert_eq!(report.track_meta_count, 4);
    assert_eq!(report.chars_decoded, 3);
    assert_eq!(report.distinct_chars, 1);
    assert_eq!(report.tracks_closed, 1);
    assert_eq!(report.snr_db_min, Some(db(-2.0)));
    assert_eq!(report.snr_db_max, Some(db(8.0)));
    assert_eq!(report.snr_db_median, Some(db(5.0)));
}

#[test]
fn a_verdict_has_its_words() {
    assert_eq!(
        Verdict::Decoding.summary(),
        "DECODING -- at least one confirmed spot. End to end, working."
    );
    assert!(Verdict::NoisyNoDecode.summary().starts_with("NOISY_NO_DECODE"));
    assert!(Verdict::WeakNoDecode.summary().starts_with("WEAK_NO_DECODE"));
}

#[test]
fn the_median_is_the_middle_level() {
    assert_eq!(median(&Vec::new()), None);
    assert_eq!(median(&vec![db(4.0)]), Some(db(4.0)));
    assert_eq!(median(&vec![db(4.0), db(-4.0), db(1.0)]), Some(db(1.0)));
}

#[test]
fn the_default_detector_rises_at_12_db_and_drops_at_3() {
    let cfg = DetectorConfig::default();
    assert_eq!(f32::from_bits(cfg.on_snr_db.to_bits()), 12.0);
    assert_eq!(f32::from_bits(cfg.off_snr_db.to_bits()), 3.0);
    assert_eq!(cfg.confirm_hops, 19);
    assert_eq!(cfg.hang_hops, 1875);
    assert_eq!(cfg.gc_hops, 11250);
    assert_eq!(cfg.warmup_hops, 750);
    assert_eq!(cfg.track_cap, 1200);
    assert_eq!(cfg.silent_respawn_cooldown_hops, 11250);
}

#[test]
fn silence_counts_through_drops_and_recoveries() {
    let cfg = DetectorConfig { confirm_hops: 2, hang_hops: 50, gc_hops: 10, ..cfg() };
    let mut life = Lifecycle::new(&cfg);
    assert_eq!(life.on_hop(true, false, false), LifecycleEvent::Promoted);
    for k in 0..9 {
        let up = k % 3 != 0;
        assert_eq!(life.on_hop(up, !up, false), LifecycleEvent::Unchanged);
    }
    assert_eq!(life.on_hop(false, true, false), LifecycleEvent::Closed(CloseReason::Silent));
}

#[test]
fn a_second_end_tells_nothing() {
    let n = 16;
    let mut tm = warm(n, cfg());
    for m in 0..6 {
        tm.step_hop(&hop(n, &[(4, 20.0, None)]), m, false);
    }
    let none: Vec<DecoderEvent> = Vec::new();
    let before = tm.close_counts();
    assert_eq!(tm.finish(&vec![ch(1, 10)]).len(), 2);
    assert_eq!(tm.close_counts(), before);
    assert!(tm.finish(&none).is_empty());
}

#[test]
fn equal_runs_are_judged_alike() {
    let samples = vec![Sample { re: part(0.5), im: part(0.0) }];
    let events = vec![meta(6), ch(16, 100), speed(16)];
    let a = decode_samples(&samples, 9, 1, &events, hz(7.0)).unwrap();
    let b = decode_samples(&samples, 9, 1, &events, hz(7.0)).unwrap();
    assert_eq!((a.track_id, a.freq_hz, a.wpm), (b.track_id, b.freq_hz, b.wpm));
    assert_eq!(a.this_track, b.this_track);
}
