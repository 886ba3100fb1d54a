use manta::dyadic::Dyadic;
use manta::kiwi::{
    backoff_for_attempt, KiwiAction, KiwiEvent, KiwiFailure, KiwiPhase, KiwiSession, KiwiStats,
    LostCause, ReconnectPolicy, MAX_CONSECUTIVE_TIMEOUTS, MAX_CONSECUTIVE_UNUSABLE_FRAMES,
    MAX_WS_FRAME_BYTES, RESAMPLER_CHUNK,
};
use manta::kiwi_handshake::{
    resampler_plan, Handshake, HandshakeAction, HandshakeEvent, HandshakeFailure, ResamplerPlan,
};
use manta::kiwi_wire::{
    ack_command, classify, parse_kv, parse_snd_frame, setup_command, Dispatch, IqPair, KiwiFrame,
    SETUP_COMMANDS, TARGET_RATE_HZ,
};
use manta::level::Single;
use manta::report::Sample;

const FAKE_AUDIO_RATE: u32 = 12_000;
const FAKE_SAMPLE_RATE: f64 = 11_998.937_786;
const MS: u64 = 1_000_000;
const SECOND: u64 = 1_000_000_000;

fn fast_policy() -> ReconnectPolicy {
    ReconnectPolicy {
        max_attempts: 3,
        backoff_base_ns: 10 * MS,
        backoff_max_ns: 30 * MS,
        connect_timeout_ns: 500 * MS,
    }
}

fn parse_kv_f64(text: &str, key: &str) -> Option<f64> {
    parse_kv(text, key).and_then(|v| v.parse().ok())
}

fn rate(text: &str, key: &str) -> Option<Dyadic> {
    parse_kv_f64(text, key).map(|v| Dyadic::from_bits(v.to_bits()))
}

fn msg(text: &str) -> KiwiFrame {
    let mut body = b"MSG".to_vec();
    body.extend_from_slice(text.as_bytes());
    KiwiFrame::Binary(body)
}

fn snd_bytes(re: f32, im: f32) -> Vec<u8> {
    let mut body = b"SND".to_vec();
    body.push(0x00);
    body.extend_from_slice(&0u32.to_le_bytes());
    body.extend_from_slice(&0i16.to_be_bytes());
    body.extend_from_slice(&[0u8; 10]);
    let i = (re * 32767.0) as i16;
    let q = (im * 32767.0) as i16;
    for _ in 0..512 {
        body.extend_from_slice(&i.to_be_bytes());
        body.extend_from_slice(&q.to_be_bytes());
    }
    body
}

fn valid_snd_frame() -> KiwiFrame {
    KiwiFrame::Binary(snd_bytes(0.1, -0.1))
}

fn unknown_tag_frame() -> KiwiFrame {
    KiwiFrame::Binary(b"XYZ0123456789".to_vec())
}

fn short_snd_frame() -> KiwiFrame {
    let mut body = b"SND".to_vec();
    body.extend_from_slice(&[0u8; 5]);
    KiwiFrame::Binary(body)
}

fn invalid_utf8_msg_frame() -> KiwiFrame {
    let mut body = b"MSG".to_vec();
    body.push(0xFF);
    body.push(0xFE);
    KiwiFrame::Binary(body)
}

enum Incoming {
    Frame(KiwiFrame),
    ReadError,
}

/// A receiver that plays one script for each connection, and the session that reads it.
struct FakeKiwi {
    scripts: Vec<Vec<Incoming>>,
    current: Vec<Incoming>,
    /// How long it takes to connect.
    connect_ns: u64,
    accepts: usize,
    session: KiwiSession,
    sent: Vec<String>,
    now: u64,
}

fn frames(list: Vec<KiwiFrame>) -> Vec<Incoming> {
    list.into_iter().map(Incoming::Frame).collect()
}

fn valid_iq(n: usize) -> Vec<KiwiFrame> {
    (0..n).map(|_| valid_snd_frame()).collect()
}

impl FakeKiwi {
    fn new(policy: ReconnectPolicy, mut scripts: Vec<Vec<Incoming>>) -> FakeKiwi {
        scripts.reverse();
        let mut current = scripts.pop().unwrap();
        current.reverse();
        FakeKiwi {
            scripts,
            current,
            connect_ns: 0,
            accepts: 1,
            session: KiwiSession::new(policy, 0),
            sent: Vec::new(),
            now: 0,
        }
    }

    fn stats(&self) -> KiwiStats {
        self.session.stats()
    }

    fn read(&mut self, max: usize) -> Result<Vec<Sample>, KiwiFailure> {
        let mut event = KiwiEvent::Wanted(max);
        loop {
            match self.session.next(event, self.now) {
                KiwiAction::Deliver(v) => return Ok(v),
                KiwiAction::NoRoom => return Ok(Vec::new()),
                KiwiAction::Fail(f) => return Err(f),
                KiwiAction::Send(s) => {
                    self.sent.push(s);
                    event = KiwiEvent::Sent;
                }
                KiwiAction::ReadFrame => {
                    event = match self.current.pop() {
                        None => {
                            self.now += 250 * MS;
                            KiwiEvent::Silence
                        }
                        Some(Incoming::ReadError) => KiwiEvent::ReadFailed,
                        Some(Incoming::Frame(f)) => match classify(&f) {
                            Dispatch::Samples(v) => KiwiEvent::Samples(v),
                            Dispatch::Parameters(t) => {
                                KiwiEvent::Rates(rate(&t, "audio_rate"), rate(&t, "sample_rate"))
                            }
                            Dispatch::Unusable => KiwiEvent::Unusable,
                            Dispatch::Ended => KiwiEvent::Ended,
                        },
                    };
                }
                KiwiAction::AskResampler => event = KiwiEvent::Needs(RESAMPLER_CHUNK),
                KiwiAction::Resample(v) => {
                    assert_eq!(v.len(), RESAMPLER_CHUNK);
                    let one = Sample { re: Single { bits: 7 }, im: Single { bits: 0x8000_0007 } };
                    event = KiwiEvent::Resampled(v.len(), vec![one; 8 * v.len()]);
                }
                KiwiAction::Sleep(ns) => {
                    self.now += ns;
                    event = KiwiEvent::Slept;
                }
                KiwiAction::Connect => {
                    self.now += self.connect_ns;
                    event = match self.scripts.pop() {
                        None => KiwiEvent::ConnectFailed,
                        Some(mut script) => {
                            script.reverse();
                            self.current = script;
                            self.accepts += 1;
                            KiwiEvent::Connected
                        }
                    };
                }
            }
        }
    }
}

#[test]
fn parses_kv_from_msg_text() {
    assert_eq!(
        parse_kv_f64(" sample_rate=11998.937786", "sample_rate"),
        Some(11998.937786)
    );
    assert_eq!(
        parse_kv_f64(" audio_init=0 audio_rate=12000", "audio_rate"),
        Some(12000.0)
    );
    assert_eq!(parse_kv_f64(" badp=0", "sample_rate"), None);
}

#[test]
fn the_first_word_with_the_key_counts() {
    assert_eq!(parse_kv("a=1 a=2", "a"), Some(String::from("1")));
    assert_eq!(parse_kv("xa=1 a=2", "a"), Some(String::from("2")));
    assert_eq!(parse_kv("a =1", "a"), None);
    assert_eq!(parse_kv("b\u{2003}a=\u{e9}\u{3000}c", "a"), Some(String::from("\u{e9}")));
    assert_eq!(parse_kv("a=", "a"), Some(String::new()));
    assert_eq!(parse_kv("", "a"), None);
    assert_eq!(parse_kv("a=x=y", "a"), Some(String::from("x=y")));
}

#[test]
fn parses_snd_frame_be_and_le() {
    let mut body = vec![0u8; 17];
    body[0] = 0x08;
    body.extend_from_slice(&1000i16.to_be_bytes());
    body.extend_from_slice(&(-2000i16).to_be_bytes());
    body.extend_from_slice(&32767i16.to_be_bytes());
    body.extend_from_slice(&(-32768i16).to_be_bytes());
    let samples = parse_snd_frame(&body, 0);
    assert_eq!(samples.len(), 2);
    let part = |v: i16| v as f32 / 32768.0;
    assert!((part(samples[0].i) - 1000.0 / 32768.0).abs() < 1e-6);
    assert!((part(samples[0].q) - (-2000.0 / 32768.0)).abs() < 1e-6);
    assert!((part(samples[1].i) - 1.0).abs() < 1e-3);
    assert!((part(samples[1].q) - (-1.0)).abs() < 1e-6);

    let mut le_body = body.clone();
    le_body[0] = 0x08 | 0x80;
    let le_samples = parse_snd_frame(&le_body, 0);
    assert_eq!(le_samples.len(), 2);
    assert_ne!(le_samples[0].i, samples[0].i);
    assert_eq!(le_samples[0].i, i16::from_le_bytes(1000i16.to_be_bytes()));
}

#[test]
fn short_snd_frame_yields_no_samples() {
    assert!(parse_snd_frame(&[0u8; 10], 0).is_empty());
    assert!(parse_snd_frame(&[0u8; 17], 0).is_empty());
    assert!(parse_snd_frame(&[0u8; 20], 0).is_empty());
    assert_eq!(parse_snd_frame(&[0u8; 21], 0), vec![IqPair { i: 0, q: 0 }]);
}

#[test]
fn frames_are_told_apart_by_their_tag() {
    assert!(matches!(classify(&KiwiFrame::Close), Dispatch::Ended));
    assert!(matches!(classify(&KiwiFrame::Text), Dispatch::Unusable));
    assert!(matches!(classify(&KiwiFrame::Ping), Dispatch::Unusable));
    assert!(matches!(classify(&KiwiFrame::Binary(b"MS".to_vec())), Dispatch::Unusable));
    assert!(matches!(classify(&unknown_tag_frame()), Dispatch::Unusable));
    assert!(matches!(classify(&short_snd_frame()), Dispatch::Unusable));
    match classify(&valid_snd_frame()) {
        Dispatch::Samples(v) => {
            assert_eq!(v.len(), 512);
            assert_eq!(v[511], IqPair { i: 3276, q: -3276 });
        }
        _ => panic!("samples expected"),
    }
}

#[test]
fn parameters_that_are_no_text_are_made_text() {
    match classify(&msg(" k=\u{e9}")) {
        Dispatch::Parameters(t) => assert_eq!(t, " k=\u{e9}"),
        _ => panic!("parameters expected"),
    }
    match classify(&invalid_utf8_msg_frame()) {
        Dispatch::Parameters(t) => assert_eq!(t, "\u{fffd}\u{fffd}"),
        _ => panic!("parameters expected"),
    }
}

#[test]
fn a_fake_receiver_completes_the_handshake_and_streams_iq() {
    let mut fake = FakeKiwi::new(ReconnectPolicy::default(), vec![frames(valid_iq(40))]);
    let got = fake.read(8192).unwrap();
    assert_eq!(got.len(), 8192);
    assert_eq!(fake.session.phase(), KiwiPhase::Idle);
    let mut total = got.len();
    while total < 8 * RESAMPLER_CHUNK {
        total += fake.read(8192).unwrap().len();
    }
    assert_eq!(total, 8 * RESAMPLER_CHUNK);
    assert_eq!(fake.stats(), KiwiStats::default());
}

#[test]
fn the_configured_password_is_sent_in_the_auth_frame() {
    let (_, action) = Handshake::begin("s3cr3t", "14025.000");
    match action {
        HandshakeAction::Send(s) => assert_eq!(s, "SET auth t=kiwi p=s3cr3t"),
        _ => panic!("the password goes first"),
    }
}

#[test]
fn a_real_sized_snd_frame_is_well_within_the_frame_bound() {
    let bytes = snd_bytes(0.1, -0.1);
    assert_eq!(bytes.len(), 2068);
    assert!(bytes.len() < MAX_WS_FRAME_BYTES / 8);
}

#[test]
fn an_oversized_frame_is_recovered_by_reconnect_and_iq_resumes() {
    let mut fake = FakeKiwi::new(
        ReconnectPolicy::default(),
        vec![vec![Incoming::ReadError], frames(valid_iq(40))],
    );
    let mut total = 0;
    for _ in 0..50 {
        total += fake.read(8192).unwrap().len();
        if total > 0 {
            break;
        }
    }
    assert!(total > 0);
    assert!(fake.stats().reconnects >= 1);
}

#[test]
fn garbage_frames_are_discarded_and_counted_then_valid_iq_still_reads() {
    let mut list = vec![
        unknown_tag_frame(),
        short_snd_frame(),
        invalid_utf8_msg_frame(),
        msg(" some_other_key=123"),
        KiwiFrame::Text,
    ];
    list.extend(valid_iq(40));
    let mut fake = FakeKiwi::new(ReconnectPolicy::default(), vec![frames(list)]);
    assert!(!fake.read(8192).unwrap().is_empty());
    assert_eq!(fake.stats().unusable_frames, 5);
    assert_eq!(fake.stats().connection_failures, 0);
}

#[test]
fn a_sustained_flood_of_unusable_frames_gives_up_cleanly_instead_of_stalling() {
    let flood = || {
        let mut list = Vec::new();
        for _ in 0..2 * MAX_CONSECUTIVE_UNUSABLE_FRAMES {
            list.push(unknown_tag_frame());
        }
        frames(list)
    };
    let policy = ReconnectPolicy { max_attempts: 1, ..fast_policy() };
    let mut fake = FakeKiwi::new(policy, vec![flood(), flood()]);
    let mut failure = None;
    for _ in 0..10 {
        match fake.read(4096) {
            Ok(_) => continue,
            Err(e) => {
                failure = Some(e);
                break;
            }
        }
    }
    assert_eq!(failure, Some(KiwiFailure::Unrecoverable(LostCause::Unusable)));
    assert_eq!(fake.stats().unusable_frames, 2 * MAX_CONSECUTIVE_UNUSABLE_FRAMES as u64);
    assert_eq!(fake.stats().connection_failures, 2);
}

#[test]
fn a_clean_close_is_recovered_by_reconnect_not_fatal() {
    let mut first = valid_iq(5);
    first.push(KiwiFrame::Close);
    let mut fake = FakeKiwi::new(
        ReconnectPolicy::default(),
        vec![frames(first), frames(valid_iq(40))],
    );
    let mut total = 0;
    for _ in 0..50 {
        total += fake.read(8192).unwrap().len();
        if total > 0 && fake.stats().reconnects >= 1 {
            break;
        }
    }
    assert!(total > 0);
    assert!(fake.stats().reconnects >= 1);
    assert!(fake.accepts >= 2);
}

#[test]
fn accept_then_close_forever_gives_up_after_the_reconnect_bound() {
    let mut scripts = Vec::new();
    for _ in 0..200 {
        scripts.push(frames(vec![KiwiFrame::Close]));
    }
    let policy = fast_policy();
    let mut fake = FakeKiwi::new(policy, scripts);
    let mut failure = None;
    for _ in 0..200 {
        match fake.read(4096) {
            Ok(_) => continue,
            Err(e) => {
                failure = Some(e);
                break;
            }
        }
    }
    assert_eq!(failure, Some(KiwiFailure::Unrecoverable(LostCause::Closed)));
    assert_eq!(fake.accepts, policy.max_attempts as usize + 1);
}

#[test]
fn an_outage_is_covered_by_zero_fill_so_the_sample_clock_does_not_drift() {
    let outage = 300 * MS;
    let mut first = valid_iq(40);
    first.push(KiwiFrame::Close);
    let mut fake = FakeKiwi::new(
        ReconnectPolicy::default(),
        vec![frames(first), frames(valid_iq(200))],
    );
    fake.connect_ns = outage;
    for _ in 0..100 {
        fake.read(8192).unwrap();
    }
    assert!(fake.stats().reconnects >= 1);
    // Half a second of waiting, and the time to connect.
    assert_eq!(fake.stats().zero_filled_samples, 76_800);
}

#[test]
fn an_outage_is_made_up_for_up_to_a_minute() {
    let mut fake = FakeKiwi::new(
        ReconnectPolicy::default(),
        vec![frames(vec![KiwiFrame::Close]), frames(valid_iq(40))],
    );
    fake.connect_ns = 600 * SECOND;
    let zero = Sample { re: Single { bits: 0 }, im: Single { bits: 0 } };
    let mut zeros = 0;
    loop {
        let got = fake.read(100_000).unwrap();
        if got[0] != zero {
            break;
        }
        zeros += got.len();
    }
    assert_eq!(zeros, 60 * 96_000);
    assert_eq!(fake.stats().zero_filled_samples, 60 * 96_000);
}

#[test]
fn a_productive_frame_resets_the_reconnect_budget() {
    let policy = ReconnectPolicy { max_attempts: 2, ..fast_policy() };
    let mut scripts = Vec::new();
    for _ in 0..12 {
        let mut list = valid_iq(40);
        list.push(KiwiFrame::Close);
        scripts.push(frames(list));
    }
    let mut fake = FakeKiwi::new(policy, scripts);
    let target_reconnects = policy.max_attempts as u64 + 3;
    for _ in 0..2000 {
        fake.read(8192).unwrap();
        if fake.stats().reconnects >= target_reconnects {
            break;
        }
    }
    assert!(fake.stats().reconnects >= target_reconnects);
}

#[test]
fn a_handshake_alone_does_not_reset_the_reconnect_budget() {
    let policy = ReconnectPolicy { max_attempts: 2, ..fast_policy() };
    let list = || frames(vec![msg(" audio_rate=12000"), KiwiFrame::Close]);
    let mut fake = FakeKiwi::new(policy, vec![list(), list(), list(), list()]);
    let mut reads = 0;
    while fake.read(4096).is_ok() {
        reads += 1;
        assert!(reads < 10);
    }
    assert_eq!(fake.accepts, 3);
    assert_eq!(fake.sent.iter().filter(|s| *s == "SET AR OK in=12000 out=96000").count(), 3);
}

#[test]
fn silence_ends_a_connection_after_forty_reads() {
    let policy = ReconnectPolicy { max_attempts: 0, ..fast_policy() };
    let mut fake = FakeKiwi::new(policy, vec![Vec::new()]);
    assert_eq!(fake.read(10), Err(KiwiFailure::Unrecoverable(LostCause::Silence)));
    assert_eq!(fake.now, MAX_CONSECUTIVE_TIMEOUTS as u64 * 250 * MS);
    // A keepalive goes out before the read after each full second, the last one excepted.
    assert_eq!(fake.sent.len(), 9);
    assert!(fake.sent.iter().all(|s| s == "SET keepalive"));
}

#[test]
fn a_command_that_cannot_be_sent_loses_the_connection() {
    let policy = ReconnectPolicy { max_attempts: 0, ..fast_policy() };
    let mut s = KiwiSession::new(policy, 0);
    assert!(matches!(s.next(KiwiEvent::Wanted(1), 2 * SECOND), KiwiAction::Send(_)));
    assert!(matches!(
        s.next(KiwiEvent::SendFailed, 2 * SECOND),
        KiwiAction::Fail(KiwiFailure::Unrecoverable(LostCause::Send))
    ));
    let mut s = KiwiSession::new(policy, 0);
    assert!(matches!(s.next(KiwiEvent::Wanted(1), 0), KiwiAction::ReadFrame));
    let twelve = Some(Dyadic::whole(12_000));
    assert!(matches!(s.next(KiwiEvent::Rates(twelve, None), 0), KiwiAction::Send(_)));
    assert!(matches!(
        s.next(KiwiEvent::SendFailed, 0),
        KiwiAction::Fail(KiwiFailure::Unrecoverable(LostCause::Send))
    ));
}

#[test]
fn a_resampler_that_fails_ends_the_read_without_a_new_connection() {
    let mut s = KiwiSession::new(fast_policy(), 0);
    s.next(KiwiEvent::Wanted(1), 0);
    s.next(KiwiEvent::Samples(vec![IqPair { i: 1, q: 2 }]), 0);
    assert!(matches!(
        s.next(KiwiEvent::ResamplerFailed, 0),
        KiwiAction::Fail(KiwiFailure::Resampler)
    ));
    assert_eq!(s.stats(), KiwiStats::default());
    let mut s = KiwiSession::new(fast_policy(), 0);
    s.next(KiwiEvent::Wanted(1), 0);
    assert!(matches!(s.next(KiwiEvent::Ended, 0), KiwiAction::Sleep(_)));
    assert!(matches!(s.next(KiwiEvent::Slept, 0), KiwiAction::Connect));
    assert!(matches!(
        s.next(KiwiEvent::RateRefused, 0),
        KiwiAction::Fail(KiwiFailure::Resampler)
    ));
    assert_eq!(s.stats().reconnects, 0);
}

#[test]
fn waits_double_up_to_the_longest() {
    let p = ReconnectPolicy::default();
    assert_eq!(backoff_for_attempt(p, 0), 500 * MS);
    assert_eq!(backoff_for_attempt(p, 1), 1000 * MS);
    assert_eq!(backoff_for_attempt(p, 2), 2000 * MS);
    assert_eq!(backoff_for_attempt(p, 3), 2000 * MS);
    assert_eq!(backoff_for_attempt(p, 31), 2000 * MS);
    assert_eq!(backoff_for_attempt(p, 32), 2000 * MS);
    assert_eq!(backoff_for_attempt(p, u32::MAX), 2000 * MS);
    let q = ReconnectPolicy { backoff_base_ns: 1, backoff_max_ns: u64::MAX, ..p };
    assert_eq!(backoff_for_attempt(q, 31), 1 << 31);
    assert_eq!(backoff_for_attempt(q, 32), u32::MAX as u64);
    let none = ReconnectPolicy { backoff_base_ns: 0, ..p };
    assert_eq!(backoff_for_attempt(none, 5), 0);
}

#[test]
fn without_a_wait_the_next_connection_is_made_at_once() {
    let policy = ReconnectPolicy { backoff_base_ns: 0, ..fast_policy() };
    let mut s = KiwiSession::new(policy, 0);
    s.next(KiwiEvent::Wanted(1), 0);
    for _ in 0..3 {
        let event = if s.phase() == KiwiPhase::Reading {
            KiwiEvent::Ended
        } else {
            KiwiEvent::ConnectFailed
        };
        assert!(matches!(s.next(event, 0), KiwiAction::Connect));
    }
    assert!(matches!(
        s.next(KiwiEvent::ConnectFailed, 0),
        KiwiAction::Fail(KiwiFailure::Unrecoverable(LostCause::Closed))
    ));
}

#[test]
fn the_audio_rate_is_accepted_without_its_fraction() {
    let ack = |x: f64| ack_command(Dyadic::from_bits(x.to_bits()).to_i64());
    assert_eq!(ack(12_000.0), "SET AR OK in=12000 out=96000");
    assert_eq!(ack(11_999.9), "SET AR OK in=11999 out=96000");
    assert_eq!(ack(-0.5), "SET AR OK in=0 out=96000");
    assert_eq!(ack(-7.5), "SET AR OK in=-7 out=96000");
    assert_eq!(ack(f64::NAN), "SET AR OK in=0 out=96000");
    assert_eq!(ack(f64::INFINITY), "SET AR OK in=9223372036854775807 out=96000");
    assert_eq!(ack(f64::NEG_INFINITY), "SET AR OK in=-9223372036854775808 out=96000");
}

#[test]
fn a_handshake_sets_up_the_receiver_once_the_rate_is_known() {
    let (mut h, action) = Handshake::begin("", "14025.000");
    let mut lines = Vec::new();
    let mut action = action;
    let incoming = [
        String::from(" rx_chans=4"),
        format!(" audio_init=0 audio_rate={FAKE_AUDIO_RATE}"),
        format!(" sample_rate={FAKE_SAMPLE_RATE}"),
    ];
    let mut at = 0;
    let rate_in_hz = loop {
        let event = match action {
            HandshakeAction::Send(s) => {
                lines.push(s);
                HandshakeEvent::Sent
            }
            HandshakeAction::ReadFrame => {
                let t = &incoming[at];
                at += 1;
                HandshakeEvent::Rates(rate(t, "audio_rate"), rate(t, "sample_rate"))
            }
            HandshakeAction::Done(r) => break r,
            HandshakeAction::Fail(_) => panic!("the handshake fails"),
        };
        action = h.next(event);
    };
    assert_eq!(rate_in_hz, 11_999);
    assert_eq!(
        lines,
        vec![
            "SET auth t=kiwi p=",
            "SET AR OK in=12000 out=96000",
            "SET ident_user=manta",
            "SET mod=iq low_cut=-5000 high_cut=5000 freq=14025.000",
            "SET agc=1 hang=0 thresh=-100 slope=6 decay=1000 manGain=50",
            "SET squelch=0 max=0",
            "SET genattn=0",
            "SET gen=0 mix=-1",
            "SET compression=0",
            "SET keepalive",
        ]
    );
    assert_eq!(lines.len(), 2 + SETUP_COMMANDS);
    assert_eq!(setup_command(1, "7.5"), "SET mod=iq low_cut=-5000 high_cut=5000 freq=7.5");
}

#[test]
fn both_rates_in_one_message_are_both_heeded() {
    let (mut h, _) = Handshake::begin("", "7000.000");
    assert!(matches!(h.next(HandshakeEvent::Sent), HandshakeAction::ReadFrame));
    let both = HandshakeEvent::Rates(Some(Dyadic::whole(12_000)), Some(Dyadic::whole(12_001)));
    match h.next(both) {
        HandshakeAction::Send(s) => assert_eq!(s, "SET AR OK in=12000 out=96000"),
        _ => panic!("the audio rate is to be accepted"),
    }
    match h.next(HandshakeEvent::Sent) {
        HandshakeAction::Send(s) => assert_eq!(s, "SET ident_user=manta"),
        _ => panic!("the receiver is to be set up"),
    }
}

#[test]
fn a_handshake_fails_on_silence_errors_and_broken_sends() {
    let (mut h, _) = Handshake::begin("", "7000.000");
    h.next(HandshakeEvent::Sent);
    for _ in 1..MAX_CONSECUTIVE_TIMEOUTS {
        assert!(matches!(h.next(HandshakeEvent::Silence), HandshakeAction::ReadFrame));
    }
    assert!(matches!(h.next(HandshakeEvent::Other), HandshakeAction::ReadFrame));
    for _ in 1..MAX_CONSECUTIVE_TIMEOUTS {
        assert!(matches!(h.next(HandshakeEvent::Silence), HandshakeAction::ReadFrame));
    }
    assert!(matches!(
        h.next(HandshakeEvent::Silence),
        HandshakeAction::Fail(HandshakeFailure::Stalled)
    ));
    let (mut h, _) = Handshake::begin("", "7000.000");
    assert!(matches!(
        h.next(HandshakeEvent::SendFailed),
        HandshakeAction::Fail(HandshakeFailure::Send)
    ));
    let (mut h, _) = Handshake::begin("", "7000.000");
    h.next(HandshakeEvent::Sent);
    assert!(matches!(
        h.next(HandshakeEvent::ReadFailed),
        HandshakeAction::Fail(HandshakeFailure::Read)
    ));
}

#[test]
fn a_rate_of_zero_has_no_resampler() {
    assert_eq!(resampler_plan(0), None);
    assert_eq!(
        resampler_plan(11_999),
        Some(ResamplerPlan {
            rate_in_hz: 11_999,
            rate_out_hz: TARGET_RATE_HZ,
            chunk: RESAMPLER_CHUNK,
            channels: 2,
        })
    );
}

#[test]
fn a_read_without_room_changes_nothing_and_is_no_end() {
    let mut s = KiwiSession::new(ReconnectPolicy::default(), 0);
    assert!(matches!(s.next(KiwiEvent::Wanted(0), 5 * SECOND), KiwiAction::NoRoom));
    assert_eq!(s.phase(), KiwiPhase::Idle);
    assert_eq!(s.stats(), KiwiStats::default());
    assert!(matches!(s.next(KiwiEvent::Wanted(1), SECOND - 1), KiwiAction::ReadFrame));
}
