//! Playing a recording back: what kind of recording a file is, what frequency it declares,
//! and what happens at its end.

use crate::dyadic::Dyadic;
use crate::report::Sample;
use crate::wav::{wav_header, WavError, WavLayout, WavModel, AUDIO_RATE_HZ};
use vstd::prelude::*;

verus! {

/// What a recording is played back as.
#[derive(Debug, Clone, Copy, PartialEq, Eq, Structural)]
pub enum ReplayKind {
    /// Complex samples, at their own rate.
    Iq,
    /// The audio of a receiver.
    Audio,
}

/// The frequency that a recording declares: that of the file beside it, if it is a positive
/// number and the recording has two channels.
pub open spec fn declared_center(layout: Option<WavLayout>, sidecar: Option<Dyadic>) -> Option<
    Dyadic,
> {
    match (layout, sidecar) {
        (Some(l), Some(f)) => if l.channels == 2 && f.above_zero() {
            Some(f)
        } else {
            None
        },
        _ => None,
    }
}

/// What a recording is. Two channels are IQ, but at the rate of audio only where a frequency
/// is declared: a receiver's audio may have two channels too, and has no other rate.
pub open spec fn kind_of(layout: WavLayout, sidecar: Option<Dyadic>) -> ReplayKind {
    if layout.channels == 2 && (layout.sample_rate != 48_000 || declared_center(
        Some(layout),
        sidecar,
    ) is Some) {
        ReplayKind::Iq
    } else {
        ReplayKind::Audio
    }
}

/// The frequency that a recording with such a header declares.
pub fn choose_center(layout: Option<WavLayout>, sidecar: Option<Dyadic>) -> (f: Option<Dyadic>)
    ensures
        f == declared_center(layout, sidecar),
{
    match layout {
        None => None,
        Some(l) => {
            if l.channels != 2 {
                return None;
            }
            match sidecar {
                None => None,
                Some(f) => {
                    if f.is_positive() {
                        Some(f)
                    } else {
                        None
                    }
                },
            }
        },
    }
}

/// What a recording with such a header is.
pub fn choose_kind(layout: WavLayout, sidecar: Option<Dyadic>) -> (kind: ReplayKind)
    ensures
        kind == kind_of(layout, sidecar),
{
    if layout.channels != 2 {
        return ReplayKind::Audio;
    }
    if layout.sample_rate != AUDIO_RATE_HZ {
        return ReplayKind::Iq;
    }
    match choose_center(Some(layout), sidecar) {
        Some(_) => ReplayKind::Iq,
        None => ReplayKind::Audio,
    }
}

/// What a recording is to be opened as. `sidecar` is the frequency in the file beside it,
/// where that can be read.
pub fn open_replay_wav(bytes: &[u8], sidecar: Option<Dyadic>) -> (r: Result<ReplayKind, WavError>)
    ensures
        r == (match crate::wav::wav_layout(bytes@) {
            None => Err::<ReplayKind, WavError>(WavError::NotWav),
            Some(l) => Ok::<ReplayKind, WavError>(kind_of(l, sidecar)),
        }),
{
    match wav_header(bytes) {
        None => Err(WavError::NotWav),
        Some(l) => Ok(choose_kind(l, sidecar)),
    }
}

/// The frequency that a recording declares. Nothing that is wrong with it is an error here.
pub fn replay_wav_center_freq_hz(bytes: &[u8], sidecar: Option<Dyadic>) -> (f: Option<Dyadic>)
    ensures
        f == declared_center(crate::wav::wav_layout(bytes@), sidecar),
{
    choose_center(wav_header(bytes), sidecar)
}

/// What a recording that is played over and over does after a read.
#[derive(Debug, Clone, Copy, PartialEq, Eq, Structural)]
pub enum LoopStep {
    /// The read is over.
    Return,
    /// Open the recording again, and read once more.
    Reopen,
}

/// What follows a read that gave `n` samples.
pub open spec fn loop_step(n: int, reopened: bool) -> LoopStep {
    if n == 0 && !reopened {
        LoopStep::Reopen
    } else {
        LoopStep::Return
    }
}

/// After a read that gave `n` samples: at the end of the recording it is opened again, once
/// for each read.
pub fn after_read(n: usize, reopened: bool) -> (step: LoopStep)
    ensures
        step == loop_step(n as int, reopened),
{
    if n > 0 || reopened {
        LoopStep::Return
    } else {
        LoopStep::Reopen
    }
}

/// The recording that a read of up to `max` samples is served from: a new one where the old
/// one has nothing left.
pub open spec fn served_from(m: WavModel, max: int) -> WavModel {
    match loop_step(m.available(max), false) {
        LoopStep::Return => m,
        LoopStep::Reopen => WavModel { cursor: 0, ..m },
    }
}

/// What a read of up to `max` samples gives, of a recording that is opened again at its end.
pub open spec fn looped_read(m: WavModel, max: int) -> Seq<Sample> {
    let from = served_from(m, max);
    from.rest().take(from.available(max))
}

/// The recording after such a read.
pub open spec fn after_looped_read(m: WavModel, max: int) -> WavModel {
    let from = served_from(m, max);
    WavModel { cursor: from.cursor + from.available(max), ..from }
}

/// The recording after reads of up to so many samples each.
pub open spec fn after_looped_reads(m: WavModel, reads: Seq<int>) -> WavModel
    decreases reads.len(),
{
    if reads.len() == 0 {
        m
    } else {
        after_looped_read(after_looped_reads(m, reads.drop_last()), reads.last())
    }
}

/// What such reads give, one after the other.
pub open spec fn looped_reads(m: WavModel, reads: Seq<int>) -> Seq<Sample>
    decreases reads.len(),
{
    if reads.len() == 0 {
        Seq::empty()
    } else {
        looped_reads(m, reads.drop_last()) + looped_read(
            after_looped_reads(m, reads.drop_last()),
            reads.last(),
        )
    }
}

/// A recording that is played over and over ends only where it holds nothing.
pub proof fn law_a_loop_does_not_end(m: WavModel, max: int)
    requires
        m.wf(),
        m.samples.len() > 0,
        max > 0,
    ensures
        looped_read(m, max).len() > 0,
        after_looped_read(m, max).wf(),
{
}

/// A recording that is played over and over gives its samples round and round, whatever the
/// sizes of the reads.
pub proof fn law_a_loop_goes_round(m: WavModel, reads: Seq<int>)
    requires
        m.wf(),
        m.samples.len() > 0,
        forall|k: int| 0 <= k < reads.len() ==> #[trigger] reads[k] > 0,
    ensures
        ({
            let given = looped_reads(m, reads);
            let n = m.samples.len() as int;
            &&& given.len() >= reads.len()
            &&& forall|i: int|
                0 <= i < given.len() ==> #[trigger] given[i] == m.samples[(m.cursor + i) % n]
            &&& after_looped_reads(m, reads).samples == m.samples
            &&& after_looped_reads(m, reads).wf()
            &&& after_looped_reads(m, reads).cursor % n == (m.cursor + given.len()) % n
        }),
    decreases reads.len(),
{
    let n = m.samples.len() as int;
    if reads.len() > 0 {
        let front = reads.drop_last();
        let max = reads.last();
        assert(reads[reads.len() - 1] == max);
        assert forall|k: int| 0 <= k < front.len() implies #[trigger] front[k] > 0 by {
            assert(front[k] == reads[k]);
        }
        law_a_loop_goes_round(m, front);
        let before = after_looped_reads(m, front);
        let earlier = looped_reads(m, front);
        let from = served_from(before, max);
        let got = looped_read(before, max);
        let given = looped_reads(m, reads);
        law_a_loop_does_not_end(before, max);
        // Both places stand for the same sample of the recording.
        if before.cursor == n {
            vstd::arithmetic::div_mod::lemma_mod_self_0(n);
        } else {
            vstd::arithmetic::div_mod::lemma_small_mod(before.cursor as nat, n as nat);
        }
        assert(from.cursor == before.cursor % n);
        assert forall|i: int| 0 <= i < given.len() implies #[trigger] given[i] == m.samples[(m.cursor
            + i) % n] by {
            if i < earlier.len() {
                assert(given[i] == earlier[i]);
            } else {
                let j = i - earlier.len();
                assert(given[i] == got[j]);
                assert(got[j] == m.samples[from.cursor + j]);
                vstd::arithmetic::div_mod::lemma_small_mod((from.cursor + j) as nat, n as nat);
                lemma_same_place(m.cursor + earlier.len(), from.cursor, j, n);
            }
        }
        lemma_same_place(m.cursor + earlier.len(), from.cursor, got.len() as int, n);
        assert(given.len() == earlier.len() + got.len());
    }
}

/// Going on equally far from two places that are the same around a circle leads to the same.
proof fn lemma_same_place(a: int, b: int, j: int, n: int)
    requires
        n > 0,
        0 <= b < n,
        a % n == b,
    ensures
        (a + j) % n == (b + j) % n,
{
    vstd::arithmetic::div_mod::lemma_add_mod_noop(a, j, n);
    vstd::arithmetic::div_mod::lemma_small_mod(b as nat, n as nat);
    vstd::arithmetic::div_mod::lemma_add_mod_noop(b, j, n);
}

/// Away from the rate of audio, two channels are IQ; with one channel, or more than two,
/// nothing is.
pub proof fn law_only_two_channels_are_iq(layout: WavLayout, sidecar: Option<Dyadic>)
    ensures
        layout.channels != 2 ==> kind_of(layout, sidecar) is Audio,
        layout.channels == 2 && layout.sample_rate != 48_000 ==> kind_of(layout, sidecar) is Iq,
        kind_of(layout, None) is Iq ==> layout.sample_rate != 48_000,
        declared_center(Some(layout), sidecar) is Some ==> kind_of(layout, sidecar) is Iq,
{
}

/// A recording declares a frequency if and only if it has two channels and the file beside it
/// gives a positive number, which it then is; and two channels at 48 kHz are IQ if and only if
/// one is declared.
pub proof fn law_a_declared_frequency_makes_iq(layout: WavLayout, sidecar: Option<Dyadic>)
    ensures
        declared_center(None, sidecar) is None,
        declared_center(Some(layout), sidecar) is Some <==> layout.channels == 2 && sidecar is Some
            && sidecar->0.above_zero(),
        declared_center(Some(layout), sidecar) is Some ==> declared_center(Some(layout), sidecar)
            == sidecar,
        kind_of(layout, sidecar) is Iq <==> layout.channels == 2 && (layout.sample_rate != 48_000
            || sidecar is Some && sidecar->0.above_zero()),
{
}

/// A recording is opened again where a read gave nothing, once for that read.
pub proof fn law_a_read_reopens_once(n: int, reopened: bool)
    requires
        n >= 0,
    ensures
        loop_step(n, true) == LoopStep::Return,
        n > 0 ==> loop_step(n, reopened) == LoopStep::Return,
        loop_step(0, false) == LoopStep::Reopen,
{
}

} // verus!
