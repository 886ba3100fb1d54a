use manta::dyadic::Dyadic;
use manta::level::Level;
use manta::lifecycle::CloseCounts;
use manta::listen::{
    calibration_samples, hop_sample_ts, pad_hops, ListenAction, ListenEvent, ListenLoop,
    ListenObservers, ListenStep, CHUNK_SAMPLES,
};
use manta::soak::{
    counts_memory, rss_bytes, soak_passed, watchdog_sleep, RunEnd, SoakMonitor, SoakReport,
    RSS_GROWTH_LIMIT_BYTES, WARMUP_NS, WATCHDOG_POLL_NS,
};
use manta::soak_metrics::{soak_metrics_passed, MetricsMonitor, SoakMetricsReport};

const SECOND: u64 = 1_000_000_000;

fn hz(x: f64) -> Dyadic {
    Dyadic::from_bits(x.to_bits())
}

fn none() -> CloseCounts {
    CloseCounts::default()
}

/// Plays a loop against a source that gives its reads in turn, and tells what was published.
fn play(wanted: usize, reads: Vec<Option<usize>>, stop_after: usize) -> (Vec<usize>, ListenAction) {
    let mut l = ListenLoop::new(wanted);
    let mut reads = reads.into_iter();
    let mut published = Vec::new();
    let mut chunks = 0;
    let mut event = ListenEvent::Begin;
    loop {
        let step: ListenStep = l.next(event);
        if let Some(n) = step.publish {
            published.push(n);
        }
        event = match step.action {
            ListenAction::FillFrom(_) | ListenAction::ReadChunk => match reads.next().unwrap() {
                Some(n) => ListenEvent::Read(n),
                None => ListenEvent::ReadFailed,
            },
            ListenAction::ProcessPadding => ListenEvent::Processed(0),
            ListenAction::ProcessCalibration => ListenEvent::Processed(3),
            ListenAction::ProcessChunk(_) => {
                chunks += 1;
                ListenEvent::Processed(3 + chunks)
            }
            ListenAction::LookForStop => ListenEvent::StopAsked(chunks >= stop_after),
            ListenAction::Flush => ListenEvent::Flushed,
            last => return (published, last),
        };
    }
}

#[test]
fn listen_with_observers_publishes_a_live_active_track_count() {
    let (published, last) = play(10, vec![Some(4), Some(6), Some(100), Some(50), Some(0)], 99);
    assert_eq!(published, vec![0, 0, 3, 4, 5, 0]);
    assert_eq!(last, ListenAction::Finish);
}

#[test]
fn the_active_track_observer_is_cleared_when_listen_exits_with_an_error() {
    let (published, last) = play(10, vec![Some(4), Some(6), Some(100), None], 99);
    assert_eq!(*published.last().unwrap(), 0);
    assert_eq!(last, ListenAction::GiveUpRead);
}

#[test]
fn plain_listen_still_runs_with_no_observers() {
    let observers = ListenObservers::default();
    assert!(observers.active_tracks.is_none());
    let (_, last) = play(0, vec![Some(0)], 99);
    assert_eq!(last, ListenAction::Finish);
}

#[test]
fn listen_reports_the_managers_track_count_and_clears_it_at_end_of_stream() {
    let (published, _) = play(1, vec![Some(1), Some(7), Some(0)], 99);
    assert!(published.contains(&4));
    assert_eq!(*published.last().unwrap(), 0);
}

#[test]
fn listen_zeroes_the_track_count_when_a_read_fails_mid_stream() {
    let (published, last) = play(1, vec![Some(1), Some(7), Some(7), None], 99);
    assert_eq!(published, vec![0, 0, 3, 4, 5, 0]);
    assert_eq!(last, ListenAction::GiveUpRead);
}

#[test]
fn a_source_that_ends_during_calibration_is_an_error() {
    let (published, last) = play(10, vec![Some(9), Some(0)], 99);
    assert_eq!(last, ListenAction::GiveUpCalibration);
    assert_eq!(*published.last().unwrap(), 0);
}

#[test]
fn a_stop_ends_the_loop_with_a_flush() {
    let (published, last) = play(1, vec![Some(1), Some(7), Some(7), Some(7)], 2);
    assert_eq!(last, ListenAction::Finish);
    assert_eq!(published, vec![0, 0, 3, 4, 5, 0]);
}

#[test]
fn the_startup_buffer_is_two_seconds() {
    assert_eq!(calibration_samples(hz(96_000.0)), 192_000);
    assert_eq!(calibration_samples(hz(0.25)), 1);
    assert_eq!(calibration_samples(hz(0.2)), 0);
    assert_eq!(calibration_samples(hz(f64::NAN)), 0);
    assert_eq!(calibration_samples(hz(-5.0)), 0);
    assert_eq!(calibration_samples(hz(f64::INFINITY)), usize::MAX);
    assert_eq!(calibration_samples(hz(1e300)), usize::MAX);
    assert_eq!(CHUNK_SAMPLES, 2048);
}

#[test]
fn hops_of_the_lead_in_stand_for_the_first_sample() {
    assert_eq!(pad_hops(0, 256), 0);
    assert_eq!(pad_hops(256, 256), 1);
    assert_eq!(pad_hops(257, 256), 2);
    assert_eq!(hop_sample_ts(0, 2, 256), 0);
    assert_eq!(hop_sample_ts(2, 2, 256), 0);
    assert_eq!(hop_sample_ts(3, 2, 256), 256);
}

#[test]
fn a_soak_passes_without_a_panic_and_with_bounded_growth() {
    let good = SoakReport { events_emitted: 1, rss_growth_bytes: 0, panicked: false, ran_for_ns: 5 };
    assert!(soak_passed(&good));
    assert!(!soak_passed(&SoakReport { panicked: true, ..good }));
    assert!(!soak_passed(&SoakReport { rss_growth_bytes: RSS_GROWTH_LIMIT_BYTES, ..good }));
    assert!(soak_passed(&SoakReport { rss_growth_bytes: RSS_GROWTH_LIMIT_BYTES - 1, ..good }));
    assert_eq!(RSS_GROWTH_LIMIT_BYTES, 200 * 1024 * 1024);
}

#[test]
fn growth_counts_after_the_warm_up_only() {
    let mut m = SoakMonitor::new(1000);
    m.on_event(WARMUP_NS - 1, 9000);
    assert!(!counts_memory(WARMUP_NS - 1));
    assert_eq!(m.growth.worst, 0);
    m.on_event(WARMUP_NS, 3000);
    m.on_event(WARMUP_NS + 1, 2000);
    m.on_event(WARMUP_NS + 2, 500);
    let report = m.report(RunEnd::Returned, 42).unwrap();
    assert_eq!(
        report,
        SoakReport { events_emitted: 4, rss_growth_bytes: 2000, panicked: false, ran_for_ns: 42 }
    );
    assert!(m.report(RunEnd::Panicked, 42).unwrap().panicked);
    assert_eq!(m.report(RunEnd::Failed, 42), None);
}

#[test]
fn soak_reports_the_interval_listen_actually_ran_not_the_request() {
    assert_eq!(watchdog_sleep(8 * SECOND, 60 * SECOND, WATCHDOG_POLL_NS, true), None);
    let report = SoakMonitor::new(0).report(RunEnd::Returned, 8 * SECOND).unwrap();
    assert_eq!(report.ran_for_ns, 8 * SECOND);
}

#[test]
fn the_watchdog_sleeps_no_longer_than_is_left() {
    assert_eq!(watchdog_sleep(0, 60 * SECOND, WATCHDOG_POLL_NS, false), Some(WATCHDOG_POLL_NS));
    assert_eq!(watchdog_sleep(95, 100, WATCHDOG_POLL_NS, false), Some(1_000_000));
    let near = 60 * SECOND - 5_000_000;
    assert_eq!(watchdog_sleep(near, 60 * SECOND, WATCHDOG_POLL_NS, false), Some(5_000_000));
    assert_eq!(watchdog_sleep(100, 100, WATCHDOG_POLL_NS, false), None);
}

#[test]
fn the_systems_figure_is_made_bytes() {
    assert_eq!(rss_bytes(3, true), 3);
    assert_eq!(rss_bytes(3, false), 3072);
}

#[test]
fn metrics_are_sampled_at_their_interval() {
    let mut m = MetricsMonitor::new(100);
    assert!(!m.sample_due(SECOND - 1, SECOND));
    assert!(m.sample_due(SECOND, SECOND));
    m.on_event(2);
    m.on_event(0);
    let s = m.take_sample(SECOND, 300, 7, none());
    assert_eq!((s.events_emitted, s.spots_emitted, s.active_tracks), (2, 2, 7));
    assert_eq!(m.growth.worst, 0);
    assert!(!m.sample_due(2 * SECOND - 1, SECOND));
    let closed = CloseCounts { merged: 3, ..none() };
    m.finish(WARMUP_NS + 5, 400, 2, closed);
    let report = m.report(RunEnd::Returned, 11).unwrap();
    assert_eq!(
        report,
        SoakMetricsReport {
            duration_actual_ns: 11,
            events_emitted: 2,
            spots_emitted: 2,
            rss_growth_bytes: 300,
            panicked: false,
            peak_active_tracks: 7,
            final_close_counts: closed,
        }
    );
    assert!(soak_metrics_passed(&report));
    assert!(!soak_metrics_passed(&SoakMetricsReport { panicked: true, ..report }));
    assert_eq!(m.report(RunEnd::Failed, 11), None);
}

#[test]
fn levels_sort_as_their_numbers() {
    let values = [f32::NEG_INFINITY, -3.5, -1e-40, 0.0, 1e-40, 2.0, 1e30, f32::INFINITY];
    for w in values.windows(2) {
        let (a, b) = (Level::from_bits(w[0].to_bits()), Level::from_bits(w[1].to_bits()));
        assert!(a.code < b.code);
        assert_eq!(a.max(b), b);
        assert_eq!(f32::from_bits(a.to_bits()), w[0]);
    }
    assert_eq!(Level::from_bits((-0.0f32).to_bits()), Level::from_bits(0.0f32.to_bits()));
}

#[test]
fn binary_fractions_are_rounded_exactly() {
    assert_eq!(hz(2.5).to_count(), 3);
    assert_eq!(hz(2.4999).to_count(), 2);
    assert_eq!(hz(-2.5).to_count(), 0);
    assert_eq!(hz(1e300).to_count(), usize::MAX);
    assert_eq!(hz(-2.9).to_i64(), -2);
    assert_eq!(hz(-1e300).to_i64(), i64::MIN);
    assert_eq!(hz(4294967295.0).to_u32(), Some(u32::MAX));
    assert_eq!(hz(4294967295.5).to_u32(), None);
    assert_eq!(hz(5e-324).to_u32(), Some(0));
    assert!(hz(48_000.0).is_whole(48_000));
    assert!(!hz(48_000.25).is_whole(48_000));
    assert!(hz(1e-300).is_positive());
    assert!(!hz(0.0).is_positive());
    assert_eq!(hz(0.75).times(10), Some(8));
    assert!(hz(0.75).product_below(10, 8) && !hz(0.75).product_below(8, 6));
    assert!(!hz(1e20).product_below(1, u64::MAX) && hz(5e-324).product_below(u64::MAX, 1));
    assert!(!hz(5e-324).product_below(0, 0));
    assert_eq!(hz(1e20).times(1), None);
    assert_eq!(hz(5e-324).times(u64::MAX), Some(0));
    assert_eq!(hz(3.0).divide(10), Some(3));
    assert_eq!(hz(1e-300).divide(1), None);
    assert_eq!(hz(1e300).divide(1), Some(0));
    assert_eq!(hz(f64::NAN), Dyadic::NotANumber);
    assert_eq!(hz(f64::NEG_INFINITY), Dyadic::Infinite { negative: true });
}

#[test]
fn the_zero_at_the_start_is_for_the_gauge_alone() {
    let mut steps = ListenLoop::new(4);
    let first = steps.next(ListenEvent::Begin);
    assert_eq!((first.publish, first.announce), (Some(0), false));
    let second = steps.next(ListenEvent::Read(4));
    assert_eq!((second.publish, second.announce), (None, false));
    let third = steps.next(ListenEvent::Processed(0));
    assert_eq!((third.publish, third.announce), (Some(0), true));
}
