//! The Metis wire format: what a receiver sends, and what is sent to set it up.
//!
//! A datagram is an 8-byte header and two 512-byte frames. A frame is an 8-byte sub-header
//! (three sync bytes and five control bytes) and 504 bytes of payload. In the payload every
//! instant takes `6 * n + 2` bytes for `n` receivers: a 24-bit I and a 24-bit Q for each
//! receiver, then two bytes that carry no IQ.

use crate::dyadic::Dyadic;
use vstd::prelude::*;

verus! {

/// The UDP port on which a receiver is reached.
pub const CONTROL_PORT: u16 = 1024;

pub const METIS_HEADER_LEN: usize = 8;

pub const USB_FRAME_LEN: usize = 512;

pub const USB_SUBHEADER_LEN: usize = 8;

pub const USB_PAYLOAD_LEN: usize = 504;

pub const USB_FRAMES_PER_PACKET: usize = 2;

pub const METIS_PACKET_LEN: usize = 1032;

pub const USB_SYNC_BYTE: u8 = 0x7F;

pub const IQ_BYTES_PER_SAMPLE: usize = 6;

pub const MIC_AUX_BYTES: usize = 2;

/// The largest 24-bit sample; a sample divided by it lies between -1 and 1, but for the one
/// that is further below zero than any is above.
pub const IQ_FULL_SCALE: i32 = 8_388_607;

/// More receivers than this have no control address for their frequency.
pub const MAX_RECEIVERS: usize = 12;

/// The length of the datagram that starts the stream.
pub const START_COMMAND_LEN: usize = 60;

/// What one 100 Mbit/s link carries in practice (78.4 Mbit/s), in hundredths of a bit per
/// second.
pub const LINK_BUDGET_CENTIBITS: u64 = 7_840_000_000;

/// One sample of one receiver, as 24-bit numbers.
#[derive(Debug, Clone, Copy, PartialEq, Eq, Structural)]
pub struct RawIq {
    pub i: i32,
    pub q: i32,
}

/// Why a configuration or a datagram is refused.
#[derive(Debug, Clone, Copy, PartialEq, Eq, Structural)]
pub enum HpsdrError {
    /// No receiver is configured.
    NoReceivers,
    /// The receivers together need more than one link carries.
    OverLinkBudget { ddc_count: usize },
    /// Not one frequency for each receiver.
    FrequencyCount { have: usize, need: usize },
    /// More receivers than there are frequency addresses.
    TooManyReceivers { ddc_count: usize },
    /// The sample rate has no control code.
    UnsupportedRate,
    /// The receiver has no frequency address.
    NoFrequencyAddress { receiver: usize },
    /// The receiver's frequency is no number that fits 32 bits.
    FrequencyOutOfRange { receiver: usize },
    /// The number of receivers does not fit the general control word.
    ReceiverCount { ddc_count: usize },
    /// The datagram has the wrong length.
    PacketLength { len: usize },
    /// Fewer streams to fill than there are receivers.
    TooFewSlots { have: usize, need: usize },
    /// The frame does not start with the sync bytes.
    BadSync { frame: usize },
}

/// Six bytes a sample, eight bits a byte, and six per cent for framing come to more than
/// [`LINK_BUDGET_CENTIBITS`]: `rate * n * 48 * 106 > LINK_BUDGET_CENTIBITS`.
pub open spec fn over_link_budget(sample_rate_hz: Dyadic, ddc_count: nat) -> bool {
    match sample_rate_hz {
        Dyadic::NotANumber => false,
        Dyadic::Infinite { negative } => !negative,
        Dyadic::Finite { .. } => {
            &&& !sample_rate_hz.below_zero()
            &&& sample_rate_hz.num() * (ddc_count * 5088) > LINK_BUDGET_CENTIBITS
                * sample_rate_hz.den()
        },
    }
}

/// What [`validate_ddc_config`] says.
pub open spec fn ddc_config_refusal(sample_rate_hz: Dyadic, ddc_count: usize) -> Option<
    HpsdrError,
> {
    if ddc_count == 0 {
        Some(HpsdrError::NoReceivers)
    } else if over_link_budget(sample_rate_hz, ddc_count as nat) {
        Some(HpsdrError::OverLinkBudget { ddc_count })
    } else {
        None
    }
}

/// The load on the wire of `ddc_count` receivers at `sample_rate_hz`, in hundredths of a bit
/// per second, to the nearest: the samples and six per cent for framing. `None` where that
/// is more than a `u64` holds.
pub fn on_wire_centibits(sample_rate_hz: Dyadic, ddc_count: u32) -> (load: Option<u64>)
    requires
        sample_rate_hz is Finite,
        !sample_rate_hz.below_zero(),
    ensures
        ({
            let exact = crate::dyadic::nearest(
                (ddc_count * 5088) * sample_rate_hz.num(),
                sample_rate_hz.den() as int,
            );
            match load {
                Some(load) => load == exact,
                None => exact > u64::MAX,
            }
        }),
{
    sample_rate_hz.times(ddc_count as u64 * 5088)
}

/// Refuses no receivers at all, and more than one link carries.
pub fn validate_ddc_config(sample_rate_hz: Dyadic, ddc_count: usize) -> (r: Result<(), HpsdrError>)
    ensures
        match ddc_config_refusal(sample_rate_hz, ddc_count) {
            None => r is Ok,
            Some(e) => r == Err::<(), HpsdrError>(e),
        },
{
    if ddc_count == 0 {
        return Err(HpsdrError::NoReceivers);
    }
    if sample_rate_hz.scaled_exceeds(ddc_count as u128 * 5088, LINK_BUDGET_CENTIBITS) {
        return Err(HpsdrError::OverLinkBudget { ddc_count });
    }
    Ok(())
}

/// Bytes from one instant to the next.
pub open spec fn stride(receivers: nat) -> nat {
    receivers * 6 + 2
}

/// Instants in one frame.
pub open spec fn instants_per_frame(receivers: nat) -> nat {
    if receivers == 0 {
        0
    } else {
        504nat / stride(receivers)
    }
}

/// Samples for each receiver in one frame.
pub fn samples_per_usb_frame(num_receivers: usize) -> (n: usize)
    ensures
        n == instants_per_frame(num_receivers as nat),
        n <= USB_PAYLOAD_LEN,
        num_receivers > 0 ==> {
            let used = 6 * (n * num_receivers) + 2 * n;
            used <= USB_PAYLOAD_LEN < used + 6 * num_receivers + 2
        },
{
    proof {
        lemma_instants_fit(num_receivers as nat);
        let per = instants_per_frame(num_receivers as nat);
        assert(per * (num_receivers * 6 + 2) == 6 * (per * num_receivers) + 2 * per)
            by (nonlinear_arith);
        assert((per + 1) * (num_receivers * 6 + 2) == 6 * (per * num_receivers) + 2 * per + 6
            * num_receivers + 2) by (nonlinear_arith);
    }
    if num_receivers == 0 {
        return 0;
    }
    if num_receivers > USB_PAYLOAD_LEN {
        proof {
            vstd::arithmetic::div_mod::lemma_basic_div_specific_divisor(
                stride(num_receivers as nat) as int,
            );
        }
        return 0;
    }
    USB_PAYLOAD_LEN / (num_receivers * IQ_BYTES_PER_SAMPLE + MIC_AUX_BYTES)
}

/// The number that three bytes stand for, the highest first, in two's complement.
pub open spec fn i24(b: Seq<u8>, at: int) -> int {
    let raw = b[at] * 65536 + b[at + 1] * 256 + b[at + 2];
    if raw >= 8_388_608 {
        raw - 16_777_216
    } else {
        raw
    }
}

/// The three bytes that stand for a number.
pub open spec fn i24_bytes(v: int) -> Seq<u8> {
    let raw = v % 16_777_216;
    seq![(raw / 65536) as u8, (raw / 256 % 256) as u8, (raw % 256) as u8]
}

/// Reads a 24-bit number at `at`.
pub fn decode_i24_be(b: &[u8], at: usize) -> (v: i32)
    requires
        at + 3 <= b@.len(),
    ensures
        v == i24(b@, at as int),
        -8_388_608 <= v <= 8_388_607,
{
    let raw: i32 = b[at] as i32 * 65536 + b[at + 1] as i32 * 256 + b[at + 2] as i32;
    if raw >= 8_388_608 {
        raw - 16_777_216
    } else {
        raw
    }
}

/// Where the sample of receiver `rx` at instant `s` of frame `frame` starts.
pub open spec fn sample_at(frame: int, s: int, receivers: int, rx: int) -> int {
    8 + frame * 512 + 8 + s * (receivers * 6 + 2) + rx * 6
}

/// What `frames` frames of a packet hold for receiver `rx`, in order.
pub open spec fn stream(packet: Seq<u8>, receivers: nat, rx: int, frames: nat) -> Seq<RawIq> {
    let per = instants_per_frame(receivers);
    Seq::new(
        frames * per,
        |k: int|
            {
                let at = sample_at(k / (per as int), k % (per as int), receivers as int, rx);
                RawIq { i: i24(packet, at) as i32, q: i24(packet, at + 3) as i32 }
            },
    )
}

/// The frame starts with the sync bytes.
pub open spec fn in_sync(packet: Seq<u8>, frame: int) -> bool {
    let at = 8 + frame * 512;
    packet[at] == 0x7F && packet[at + 1] == 0x7F && packet[at + 2] == 0x7F
}

/// What [`demux_metis_packet`] says of a packet.
pub open spec fn packet_refusal(packet: Seq<u8>, receivers: usize, slots: usize) -> Option<
    HpsdrError,
> {
    if packet.len() != 1032 {
        Some(HpsdrError::PacketLength { len: packet.len() as usize })
    } else if slots < receivers {
        Some(HpsdrError::TooFewSlots { have: slots, need: receivers })
    } else if !in_sync(packet, 0) {
        Some(HpsdrError::BadSync { frame: 0 })
    } else if !in_sync(packet, 1) {
        Some(HpsdrError::BadSync { frame: 1 })
    } else {
        None
    }
}

/// How many frames of a packet are taken over before it is refused, if it is.
pub open spec fn frames_taken(packet: Seq<u8>, receivers: usize, slots: usize) -> nat {
    match packet_refusal(packet, receivers, slots) {
        None => 2,
        Some(HpsdrError::BadSync { frame }) => frame as nat,
        Some(_) => 0,
    }
}

/// Every stream of a receiver has grown by what the packet holds for it.
pub open spec fn grown(
    before: Seq<Vec<RawIq>>,
    after: Seq<Vec<RawIq>>,
    packet: Seq<u8>,
    receivers: nat,
    frames: nat,
) -> bool {
    &&& after.len() == before.len()
    &&& forall|rx: int|
        0 <= rx < after.len() ==> (#[trigger] after[rx])@ == (if rx < receivers {
            before[rx]@ + stream(packet, receivers, rx, frames)
        } else {
            before[rx]@
        })
}

/// Takes one sample for each receiver at one instant.
fn demux_instant(packet: &[u8], at: usize, num_receivers: usize, out: &mut Vec<Vec<RawIq>>)
    requires
        packet@.len() == METIS_PACKET_LEN,
        num_receivers <= old(out)@.len(),
        at + num_receivers * 6 <= METIS_PACKET_LEN,
    ensures
        final(out)@.len() == old(out)@.len(),
        forall|rx: int|
            0 <= rx < final(out)@.len() ==> (#[trigger] final(out)@[rx])@ == (if rx
                < num_receivers {
                old(out)@[rx]@.push(
                    RawIq {
                        i: i24(packet@, at + rx * 6) as i32,
                        q: i24(packet@, at + rx * 6 + 3) as i32,
                    },
                )
            } else {
                old(out)@[rx]@
            }),
{
    let mut rx: usize = 0;
    while rx < num_receivers
        invariant
            rx <= num_receivers <= old(out)@.len(),
            packet@.len() == METIS_PACKET_LEN,
            at + num_receivers * 6 <= METIS_PACKET_LEN,
            out@.len() == old(out)@.len(),
            forall|k: int|
                0 <= k < out@.len() ==> (#[trigger] out@[k])@ == (if k < rx {
                    old(out)@[k]@.push(
                        RawIq {
                            i: i24(packet@, at + k * 6) as i32,
                            q: i24(packet@, at + k * 6 + 3) as i32,
                        },
                    )
                } else {
                    old(out)@[k]@
                }),
        decreases num_receivers - rx,
    {
        let off: usize = at + rx * IQ_BYTES_PER_SAMPLE;
        let i: i32 = decode_i24_be(packet, off);
        let q: i32 = decode_i24_be(packet, off + 3);
        out[rx].push(RawIq { i, q });
        rx = rx + 1;
    }
}

/// Appends what frame `frame` of a packet holds to the stream of each receiver.
fn demux_usb_payload(packet: &[u8], frame: usize, num_receivers: usize, out: &mut Vec<Vec<RawIq>>)
    requires
        packet@.len() == METIS_PACKET_LEN,
        frame < 2,
        num_receivers <= old(out)@.len(),
    ensures
        final(out)@.len() == old(out)@.len(),
        forall|rx: int|
            0 <= rx < final(out)@.len() ==> (#[trigger] final(out)@[rx])@ == (if rx
                < num_receivers {
                old(out)@[rx]@ + frame_part(
                    packet@,
                    num_receivers as nat,
                    rx,
                    frame as int,
                    instants_per_frame(num_receivers as nat),
                )
            } else {
                old(out)@[rx]@
            }),
{
    let n: usize = samples_per_usb_frame(num_receivers);
    proof {
        lemma_instants_fit(num_receivers as nat);
    }
    let start: usize = METIS_HEADER_LEN + frame * USB_FRAME_LEN + USB_SUBHEADER_LEN;
    let mut s: usize = 0;
    while s < n
        invariant
            s <= n,
            n == instants_per_frame(num_receivers as nat),
            n * (num_receivers * 6 + 2) <= 504,
            packet@.len() == METIS_PACKET_LEN,
            frame < 2,
            start == 8 + frame * 512 + 8,
            num_receivers <= old(out)@.len(),
            out@.len() == old(out)@.len(),
            n > 0 ==> num_receivers <= 84,
            forall|rx: int|
                0 <= rx < out@.len() ==> (#[trigger] out@[rx])@ == (if rx < num_receivers {
                    old(out)@[rx]@ + frame_part(
                        packet@,
                        num_receivers as nat,
                        rx,
                        frame as int,
                        s as nat,
                    )
                } else {
                    old(out)@[rx]@
                }),
        decreases n - s,
    {
        proof {
            let w = num_receivers * 6 + 2;
            assert(s * w + w <= n * w) by (nonlinear_arith)
                requires
                    s + 1 <= n,
                    w >= 0,
            ;
            assert(s * w >= 0) by (nonlinear_arith)
                requires
                    w >= 0,
            ;
        }
        let at: usize = start + s * (num_receivers * IQ_BYTES_PER_SAMPLE + MIC_AUX_BYTES);
        let ghost before = *out;
        demux_instant(packet, at, num_receivers, out);
        proof {
            assert forall|rx: int| 0 <= rx < out@.len() implies (#[trigger] out@[rx])@ == (if rx
                < num_receivers {
                old(out)@[rx]@ + frame_part(
                    packet@,
                    num_receivers as nat,
                    rx,
                    frame as int,
                    (s + 1) as nat,
                )
            } else {
                old(out)@[rx]@
            }) by {
                assert(before@[rx]@.len() >= 0);
                if rx < num_receivers {
                    assert(out@[rx]@ =~= old(out)@[rx]@ + frame_part(
                        packet@,
                        num_receivers as nat,
                        rx,
                        frame as int,
                        (s + 1) as nat,
                    ));
                }
            }
        }
        s = s + 1;
    }
}

/// The first `instants` samples that one frame holds for receiver `rx`.
pub open spec fn frame_part(
    packet: Seq<u8>,
    receivers: nat,
    rx: int,
    frame: int,
    instants: nat,
) -> Seq<RawIq> {
    Seq::new(
        instants,
        |s: int|
            {
                let at = sample_at(frame, s, receivers as int, rx);
                RawIq { i: i24(packet, at) as i32, q: i24(packet, at + 3) as i32 }
            },
    )
}

proof fn lemma_instants_fit(receivers: nat)
    ensures
        instants_per_frame(receivers) * (receivers * 6 + 2) <= 504,
        receivers > 0 ==> 504 < (instants_per_frame(receivers) + 1) * (receivers * 6 + 2),
        instants_per_frame(receivers) > 0 ==> receivers <= 84,
{
    if receivers > 0 {
        let w = stride(receivers) as int;
        vstd::arithmetic::div_mod::lemma_fundamental_div_mod(504, w);
        vstd::arithmetic::div_mod::lemma_mod_bound(504, w);
        let q = 504int / w;
        assert(q * w == w * q) by (nonlinear_arith);
        assert((q + 1) * w == q * w + w) by (nonlinear_arith);
        if receivers > 84 {
            vstd::arithmetic::div_mod::lemma_basic_div_specific_divisor(w);
        }
    } else {
        assert(0 * (receivers * 6 + 2) == 0) by (nonlinear_arith);
    }
}

/// One frame after the other is the stream.
proof fn lemma_stream_grows(packet: Seq<u8>, receivers: nat, rx: int, frames: nat)
    ensures
        stream(packet, receivers, rx, frames + 1) == stream(packet, receivers, rx, frames)
            + frame_part(packet, receivers, rx, frames as int, instants_per_frame(receivers)),
{
    let per = instants_per_frame(receivers);
    assert((frames + 1) * per == frames * per + per) by (nonlinear_arith);
    if per > 0 {
        assert forall|k: int| 0 <= k < per implies #[trigger] (frames * per + k) / (per as int)
            == frames && (frames * per + k) % (per as int) == k by {
            assert(frames * per + k == per * frames + k) by (nonlinear_arith);
            vstd::arithmetic::div_mod::lemma_fundamental_div_mod_converse(
                frames * per + k,
                per as int,
                frames as int,
                k,
            );
        }
        let whole = stream(packet, receivers, rx, frames + 1);
        let parts = stream(packet, receivers, rx, frames) + frame_part(
            packet,
            receivers,
            rx,
            frames as int,
            per,
        );
        assert forall|k: int| 0 <= k < whole.len() implies whole[k] == parts[k] by {
            if k >= frames * per {
                let j = k - frames * per;
                assert((frames * per + j) / (per as int) == frames);
            }
        }
        assert(whole =~= parts);
    } else {
        assert(stream(packet, receivers, rx, frames + 1) =~= stream(packet, receivers, rx, frames)
            + frame_part(packet, receivers, rx, frames as int, per));
    }
}

/// Parts a packet into one stream for each receiver. A packet that is refused for its second
/// frame has left its first in the streams.
pub fn demux_metis_packet(
    packet: &[u8],
    num_receivers: usize,
    out: &mut Vec<Vec<RawIq>>,
) -> (r: Result<(), HpsdrError>)
    ensures
        match packet_refusal(packet@, num_receivers, old(out).len()) {
            None => r is Ok,
            Some(e) => r == Err::<(), HpsdrError>(e),
        },
        grown(
            old(out)@,
            final(out)@,
            packet@,
            num_receivers as nat,
            frames_taken(packet@, num_receivers, old(out).len()),
        ),
{
    proof {
        assert forall|rx: int| #[trigger]
            stream(packet@, num_receivers as nat, rx, 0) == Seq::<RawIq>::empty() by {
            assert(0 * instants_per_frame(num_receivers as nat) == 0) by (nonlinear_arith);
        }
        assert forall|k: int| 0 <= k < old(out)@.len() implies (#[trigger] old(out)@[k])@
            + Seq::<RawIq>::empty() == old(out)@[k]@ by {
            assert(old(out)@[k]@ + Seq::<RawIq>::empty() =~= old(out)@[k]@);
        }
    }
    if packet.len() != METIS_PACKET_LEN {
        return Err(HpsdrError::PacketLength { len: packet.len() });
    }
    if out.len() < num_receivers {
        return Err(HpsdrError::TooFewSlots { have: out.len(), need: num_receivers });
    }
    let mut frame: usize = 0;
    while frame < USB_FRAMES_PER_PACKET
        invariant
            frame <= 2,
            packet@.len() == METIS_PACKET_LEN,
            num_receivers <= old(out)@.len(),
            forall|k: int| 0 <= k < frame ==> #[trigger] in_sync(packet@, k),
            grown(old(out)@, out@, packet@, num_receivers as nat, frame as nat),
        decreases 2 - frame,
    {
        let at: usize = METIS_HEADER_LEN + frame * USB_FRAME_LEN;
        if packet[at] != USB_SYNC_BYTE || packet[at + 1] != USB_SYNC_BYTE || packet[at + 2]
            != USB_SYNC_BYTE {
            assert(!in_sync(packet@, frame as int));
            return Err(HpsdrError::BadSync { frame });
        }
        let ghost before = *out;
        demux_usb_payload(packet, frame, num_receivers, out);
        proof {
            assert forall|rx: int| 0 <= rx < out@.len() implies (#[trigger] out@[rx])@ == (if rx
                < num_receivers {
                old(out)@[rx]@ + stream(packet@, num_receivers as nat, rx, (frame + 1) as nat)
            } else {
                old(out)@[rx]@
            }) by {
                assert(before@[rx]@.len() >= 0);
                if rx < num_receivers {
                    lemma_stream_grows(packet@, num_receivers as nat, rx, frame as nat);
                    let a = old(out)@[rx]@;
                    let b = stream(packet@, num_receivers as nat, rx, frame as nat);
                    let c = frame_part(
                        packet@,
                        num_receivers as nat,
                        rx,
                        frame as int,
                        instants_per_frame(num_receivers as nat),
                    );
                    assert((a + b) + c =~= a + (b + c));
                }
            }
        }
        frame = frame + 1;
    }
    assert(in_sync(packet@, 0) && in_sync(packet@, 1));
    Ok(())
}

/// The control code of a sample rate.
pub open spec fn rate_code(sample_rate_hz: Dyadic) -> Option<u8> {
    if sample_rate_hz.equals(48_000) {
        Some(0)
    } else if sample_rate_hz.equals(96_000) {
        Some(1)
    } else if sample_rate_hz.equals(192_000) {
        Some(2)
    } else if sample_rate_hz.equals(384_000) {
        Some(3)
    } else {
        None
    }
}

/// The control code of a sample rate, for the four rates that have one. Nothing near them
/// is taken for one of them.
pub fn cc_sample_rate_code(sample_rate_hz: Dyadic) -> (r: Result<u8, HpsdrError>)
    ensures
        match rate_code(sample_rate_hz) {
            Some(code) => r == Ok::<u8, HpsdrError>(code),
            None => r == Err::<u8, HpsdrError>(HpsdrError::UnsupportedRate),
        },
{
    if sample_rate_hz.is_whole(48_000) {
        Ok(0)
    } else if sample_rate_hz.is_whole(96_000) {
        Ok(1)
    } else if sample_rate_hz.is_whole(192_000) {
        Ok(2)
    } else if sample_rate_hz.is_whole(384_000) {
        Ok(3)
    } else {
        Err(HpsdrError::UnsupportedRate)
    }
}

/// The control address of a receiver's frequency: 0x02 to 0x08 for the first seven
/// receivers, 0x12 to 0x16 for the next five.
pub open spec fn freq_addr(rx: int) -> int {
    if rx < 7 {
        2 + rx
    } else {
        0x12 + rx - 7
    }
}

/// The control address of a receiver's frequency.
pub fn cc_rx_freq_addr(rx_index: usize) -> (r: Result<u8, HpsdrError>)
    ensures
        rx_index < 12 ==> r is Ok && r->Ok_0 == freq_addr(rx_index as int),
        rx_index >= 12 ==> r == Err::<u8, HpsdrError>(
            HpsdrError::NoFrequencyAddress { receiver: rx_index },
        ),
{
    if rx_index <= 6 {
        Ok(0x02 + rx_index as u8)
    } else if rx_index <= 11 {
        Ok(0x12 + (rx_index - 7) as u8)
    } else {
        Err(HpsdrError::NoFrequencyAddress { receiver: rx_index })
    }
}

/// The first control byte: six bits of address above a transmit bit that is never set.
pub fn cc_c0(addr: u8) -> (c0: u8)
    ensures
        c0 == addr % 64 * 2,
{
    assert((addr & 0x3F) << 1 == addr % 64 * 2) by (bit_vector);
    (addr & 0x3F) << 1
}

/// The four bytes of a number, the highest first.
pub open spec fn be_bytes(n: int) -> Seq<u8> {
    seq![
        (n / 16_777_216) as u8,
        (n / 65_536 % 256) as u8,
        (n / 256 % 256) as u8,
        (n % 256) as u8,
    ]
}

/// The number that four bytes stand for, the highest first.
pub open spec fn be_number(b: Seq<u8>, at: int) -> int {
    b[at] * 16_777_216 + b[at + 1] * 65_536 + b[at + 2] * 256 + b[at + 3]
}

fn to_be(n: u32) -> (b: [u8; 4])
    ensures
        b@ == be_bytes(n as int),
{
    [
        (n / 16_777_216) as u8,
        (n / 65_536 % 256) as u8,
        (n / 256 % 256) as u8,
        (n % 256) as u8,
    ]
}

/// What [`build_general_cc`] refuses, the rate before the count.
pub open spec fn general_refusal(sample_rate_hz: Dyadic, num_receivers: usize) -> Option<
    HpsdrError,
> {
    if rate_code(sample_rate_hz) is None {
        Some(HpsdrError::UnsupportedRate)
    } else if num_receivers == 0 || num_receivers > 12 {
        Some(HpsdrError::ReceiverCount { ddc_count: num_receivers })
    } else {
        None
    }
}

/// The general control word: sample rate and number of receivers.
pub open spec fn general_word(sample_rate_hz: Dyadic, num_receivers: int) -> Seq<u8> {
    seq![0u8, rate_code(sample_rate_hz)->0, 0u8, 0u8, ((num_receivers - 1) * 8) as u8]
}

/// Builds the general control word.
pub fn build_general_cc(sample_rate_hz: Dyadic, num_receivers: usize) -> (r: Result<
    [u8; 5],
    HpsdrError,
>)
    ensures
        match general_refusal(sample_rate_hz, num_receivers) {
            Some(e) => r == Err::<[u8; 5], HpsdrError>(e),
            None => r is Ok && r->Ok_0@ == general_word(sample_rate_hz, num_receivers as int),
        },
{
    match cc_sample_rate_code(sample_rate_hz) {
        Err(e) => Err(e),
        Ok(code) => {
            if num_receivers == 0 || num_receivers > MAX_RECEIVERS {
                return Err(HpsdrError::ReceiverCount { ddc_count: num_receivers });
            }
            let m: u8 = (num_receivers - 1) as u8;
            assert(m <= 11 ==> (m & 0x0F) << 3 == m * 8) by (bit_vector);
            let cc: [u8; 5] = [cc_c0(0), code, 0, 0, (m & 0x0F) << 3];
            assert(cc@ =~= general_word(sample_rate_hz, num_receivers as int));
            Ok(cc)
        },
    }
}

/// The frequency is a number between 0 and what 32 bits hold.
pub open spec fn tunable(freq_hz: Dyadic) -> bool {
    freq_hz.at_most(u32::MAX as nat)
}

/// What [`build_rx_freq_cc`] refuses, the receiver before the frequency.
pub open spec fn freq_refusal(rx_index: usize, freq_hz: Dyadic) -> Option<HpsdrError> {
    if rx_index >= 12 {
        Some(HpsdrError::NoFrequencyAddress { receiver: rx_index })
    } else if !tunable(freq_hz) {
        Some(HpsdrError::FrequencyOutOfRange { receiver: rx_index })
    } else {
        None
    }
}

/// The control word that tunes a receiver: its address, and the frequency to the nearest Hz.
pub open spec fn freq_word(rx: int, freq_hz: Dyadic) -> Seq<u8> {
    seq![(freq_addr(rx) * 2) as u8] + be_bytes(freq_hz.rounded())
}

/// Builds the control word that tunes a receiver.
pub fn build_rx_freq_cc(rx_index: usize, freq_hz: Dyadic) -> (r: Result<[u8; 5], HpsdrError>)
    ensures
        match freq_refusal(rx_index, freq_hz) {
            Some(e) => r == Err::<[u8; 5], HpsdrError>(e),
            None => r is Ok && r->Ok_0@ == freq_word(rx_index as int, freq_hz),
        },
{
    match cc_rx_freq_addr(rx_index) {
        Err(e) => Err(e),
        Ok(addr) => match freq_hz.to_u32() {
            None => Err(HpsdrError::FrequencyOutOfRange { receiver: rx_index }),
            Some(freq) => {
                let b: [u8; 4] = to_be(freq);
                let cc: [u8; 5] = [cc_c0(addr), b[0], b[1], b[2], b[3]];
                assert(cc@ =~= freq_word(rx_index as int, freq_hz));
                Ok(cc)
            },
        },
    }
}

/// A frame that carries one control word and nothing else.
pub open spec fn cc_frame(cc: Seq<u8>) -> Seq<u8> {
    seq![0x7Fu8, 0x7Fu8, 0x7Fu8] + cc + Seq::new(504, |k: int| 0u8)
}

/// Builds a frame that carries one control word.
pub fn build_cc_usb_frame(cc: [u8; 5]) -> (frame: [u8; 512])
    ensures
        frame@ == cc_frame(cc@),
{
    let mut frame: [u8; 512] = [0u8; 512];
    frame[0] = USB_SYNC_BYTE;
    frame[1] = USB_SYNC_BYTE;
    frame[2] = USB_SYNC_BYTE;
    frame[3] = cc[0];
    frame[4] = cc[1];
    frame[5] = cc[2];
    frame[6] = cc[3];
    frame[7] = cc[4];
    assert(frame@ =~= cc_frame(cc@));
    frame
}

/// The datagram that carries two frames to a receiver.
pub open spec fn cc_packet(seq: int, frame_a: Seq<u8>, frame_b: Seq<u8>) -> Seq<u8> {
    seq![0xEFu8, 0xFEu8, 0x01u8, 0x02u8] + be_bytes(seq) + frame_a + frame_b
}

/// Builds the datagram that carries two frames to a receiver: the header of endpoint 2, the
/// sequence number, the frames.
pub fn build_cc_packet(seq: u32, frame_a: [u8; 512], frame_b: [u8; 512]) -> (pkt: [u8; 1032])
    ensures
        pkt@ == cc_packet(seq as int, frame_a@, frame_b@),
{
    let b: [u8; 4] = to_be(seq);
    let mut pkt: [u8; 1032] = [0u8; 1032];
    pkt[0] = 0xEF;
    pkt[1] = 0xFE;
    pkt[2] = 0x01;
    pkt[3] = 0x02;
    pkt[4] = b[0];
    pkt[5] = b[1];
    pkt[6] = b[2];
    pkt[7] = b[3];
    let mut k: usize = 0;
    while k < 512
        invariant
            k <= 512,
            pkt@.len() == 1032,
            pkt@.subrange(0, 8) == seq![0xEFu8, 0xFEu8, 0x01u8, 0x02u8] + be_bytes(seq as int),
            forall|j: int| 0 <= j < k ==> pkt@[8 + j] == #[trigger] frame_a@[j],
            forall|j: int| 0 <= j < k ==> pkt@[520 + j] == #[trigger] frame_b@[j],
        decreases 512 - k,
    {
        let ghost before = pkt@;
        pkt[METIS_HEADER_LEN + k] = frame_a[k];
        pkt[METIS_HEADER_LEN + USB_FRAME_LEN + k] = frame_b[k];
        assert(pkt@.subrange(0, 8) =~= before.subrange(0, 8));
        k = k + 1;
    }
    proof {
        let want = cc_packet(seq as int, frame_a@, frame_b@);
        let head = seq![0xEFu8, 0xFEu8, 0x01u8, 0x02u8] + be_bytes(seq as int);
        assert forall|j: int| 0 <= j < 1032 implies pkt@[j] == want[j] by {
            if j < 8 {
                assert(pkt@.subrange(0, 8)[j] == head[j]);
            } else if j < 520 {
                assert(pkt@[8 + (j - 8)] == frame_a@[j - 8]);
            } else {
                assert(pkt@[520 + (j - 520)] == frame_b@[j - 520]);
            }
        }
        assert(pkt@ =~= want);
    }
    pkt
}

/// The datagram that starts the stream, and keeps it going.
pub open spec fn start_command() -> Seq<u8> {
    seq![0xEFu8, 0xFEu8, 0x04u8, 0x01u8] + Seq::new(56, |k: int| 0u8)
}

/// Builds the datagram that starts the stream.
pub fn build_start_command() -> (pkt: [u8; 60])
    ensures
        pkt@ == start_command(),
{
    let mut pkt: [u8; 60] = [0u8; 60];
    pkt[0] = 0xEF;
    pkt[1] = 0xFE;
    pkt[2] = 0x04;
    pkt[3] = 0x01;
    assert(pkt@ =~= start_command());
    pkt
}

/// A 24-bit number comes back from its three bytes.
pub proof fn law_numbers_come_back(v: int, rest: Seq<u8>)
    requires
        -8_388_608 <= v <= 8_388_607,
    ensures
        i24(i24_bytes(v) + rest, 0) == v,
{
    let raw = v % 16_777_216;
    let (h, m, l) = (raw / 65536, raw / 256 % 256, raw % 256);
    assert(0 <= h < 256 && 0 <= m < 256 && 0 <= l < 256 && raw == h * 65536 + m * 256 + l);
    assert(raw == if v < 0 { v + 16_777_216 } else { v });
    let b = i24_bytes(v) + rest;
    assert(b[0] == h && b[1] == m && b[2] == l);
}

/// Every sample lies in the payload of its frame, and no two samples of a frame share a byte.
pub proof fn law_samples_do_not_overlap(
    receivers: nat,
    frame: int,
    s: int,
    rx: int,
    t: int,
    ry: int,
)
    requires
        0 <= frame < 2,
        0 <= s < instants_per_frame(receivers),
        0 <= t < instants_per_frame(receivers),
        0 <= rx < receivers,
        0 <= ry < receivers,
        s != t || rx != ry,
    ensures
        8 + frame * 512 + 8 <= sample_at(frame, s, receivers as int, rx),
        sample_at(frame, s, receivers as int, rx) + 6 <= 8 + (frame + 1) * 512,
        ({
            let a = sample_at(frame, s, receivers as int, rx);
            let b = sample_at(frame, t, receivers as int, ry);
            a + 6 <= b || b + 6 <= a
        }),
{
    lemma_instants_fit(receivers);
    let w = receivers * 6 + 2;
    let n = instants_per_frame(receivers);
    assert(s * w >= 0) by (nonlinear_arith)
        requires
            s >= 0,
            w >= 0,
    ;
    assert(s * w + w <= n * w) by (nonlinear_arith)
        requires
            s + 1 <= n,
            w >= 0,
    ;
    if s < t {
        assert(s * w + w <= t * w) by (nonlinear_arith)
            requires
                s + 1 <= t,
                w >= 0,
        ;
    } else if t < s {
        assert(t * w + w <= s * w) by (nonlinear_arith)
            requires
                t + 1 <= s,
                w >= 0,
        ;
    }
}

/// The packet carries `streams[rx]` for every receiver `rx`: its samples stand, as bytes, at
/// their places.
pub open spec fn carries(packet: Seq<u8>, receivers: nat, streams: Seq<Seq<RawIq>>) -> bool {
    let per = instants_per_frame(receivers);
    &&& packet.len() == 1032
    &&& streams.len() == receivers
    &&& forall|rx: int| 0 <= rx < receivers ==> (#[trigger] streams[rx]).len() == 2 * per
    &&& forall|rx: int, k: int|
        0 <= rx < receivers && 0 <= k < 2 * per ==> {
            let at = sample_at(k / (per as int), k % (per as int), receivers as int, rx);
            let iq = #[trigger] streams[rx][k];
            &&& -8_388_608 <= iq.i <= 8_388_607
            &&& -8_388_608 <= iq.q <= 8_388_607
            &&& packet.subrange(at, at + 6) == i24_bytes(iq.i as int) + i24_bytes(iq.q as int)
        }
}

/// What was put into a packet for a receiver is what comes out for that receiver, every
/// sample of it, in order.
pub proof fn law_every_sample_comes_back(
    packet: Seq<u8>,
    receivers: nat,
    streams: Seq<Seq<RawIq>>,
    rx: int,
)
    requires
        carries(packet, receivers, streams),
        0 <= rx < receivers,
    ensures
        stream(packet, receivers, rx, 2) == streams[rx],
{
    let per = instants_per_frame(receivers);
    let got = stream(packet, receivers, rx, 2);
    assert(streams[rx].len() == 2 * per);
    assert forall|k: int| 0 <= k < 2 * per implies got[k] == streams[rx][k] by {
        let at = sample_at(k / (per as int), k % (per as int), receivers as int, rx);
        let iq = streams[rx][k];
        vstd::arithmetic::div_mod::lemma_mod_bound(k, per as int);
        vstd::arithmetic::div_mod::lemma_fundamental_div_mod(k, per as int);
        let f = k / (per as int);
        assert(0 <= f < 2) by (nonlinear_arith)
            requires
                per > 0,
                k == per * f + k % (per as int),
                0 <= k % (per as int) < per,
                0 <= k < 2 * per,
        ;
        lemma_sample_in_packet(receivers, f, k % (per as int), rx);
        law_numbers_come_back(iq.i as int, i24_bytes(iq.q as int));
        law_numbers_come_back(iq.q as int, Seq::empty());
        let six = packet.subrange(at, at + 6);
        assert(six[0] == packet[at] && six[1] == packet[at + 1] && six[2] == packet[at + 2]);
        assert(six[3] == packet[at + 3] && six[4] == packet[at + 4] && six[5] == packet[at + 5]);
        let tail = i24_bytes(iq.q as int) + Seq::<u8>::empty();
        assert(tail =~= i24_bytes(iq.q as int));
    }
    assert(got =~= streams[rx]);
}

proof fn lemma_sample_in_packet(receivers: nat, frame: int, s: int, rx: int)
    requires
        0 <= frame < 2,
        0 <= s < instants_per_frame(receivers),
        0 <= rx < receivers,
    ensures
        0 <= sample_at(frame, s, receivers as int, rx),
        sample_at(frame, s, receivers as int, rx) + 6 <= 1032,
{
    lemma_instants_fit(receivers);
    let w = receivers * 6 + 2;
    let n = instants_per_frame(receivers);
    assert(0 <= s * w && s * w + w <= n * w) by (nonlinear_arith)
        requires
            0 <= s,
            s + 1 <= n,
            w >= 0,
    ;
}

/// No two receivers are tuned through one address, and none through an address that means
/// something else: 0x00 and 0x01, and 0x09 to 0x11.
pub proof fn law_frequency_addresses_are_distinct(rx: int, ry: int)
    requires
        0 <= rx < 12,
        0 <= ry < 12,
        rx != ry,
    ensures
        freq_addr(rx) != freq_addr(ry),
        0x02 <= freq_addr(rx) <= 0x16,
        !(0x09 <= freq_addr(rx) <= 0x11),
{
}

/// A tuning word names the receiver's address with the transmit bit clear, and holds the
/// frequency to the nearest Hz.
pub proof fn law_tuning_words_are_readable(rx: int, freq_hz: Dyadic)
    requires
        0 <= rx < 12,
        tunable(freq_hz),
    ensures
        freq_word(rx, freq_hz).len() == 5,
        freq_word(rx, freq_hz)[0] == 2 * freq_addr(rx),
        be_number(freq_word(rx, freq_hz), 1) == freq_hz.rounded(),
{
    crate::dyadic::lemma_rounded_in_range(freq_hz, u32::MAX as nat);
    lemma_be_number(freq_hz.rounded());
}

proof fn lemma_be_number(n: int)
    requires
        0 <= n <= u32::MAX,
    ensures
        be_number(be_bytes(n), 0) == n,
{
}

/// A control packet holds the sequence number, and two frames that start with the sync bytes
/// and the two control words.
pub proof fn law_control_packets_are_readable(seq: u32, a: Seq<u8>, b: Seq<u8>)
    requires
        a.len() == 5,
        b.len() == 5,
    ensures
        ({
            let p = cc_packet(seq as int, cc_frame(a), cc_frame(b));
            &&& p.len() == 1032
            &&& be_number(p, 4) == seq
            &&& in_sync(p, 0)
            &&& in_sync(p, 1)
            &&& p.subrange(11, 16) == a
            &&& p.subrange(523, 528) == b
        }),
{
    let p = cc_packet(seq as int, cc_frame(a), cc_frame(b));
    lemma_be_number(seq as int);
    assert(p.subrange(11, 16) =~= a);
    assert(p.subrange(523, 528) =~= b);
}

/// Where the link does not carry some number of receivers, it carries no larger number.
pub proof fn law_more_receivers_need_no_less(sample_rate_hz: Dyadic, few: usize, many: usize)
    requires
        0 < few <= many,
        ddc_config_refusal(sample_rate_hz, few) is Some,
    ensures
        ddc_config_refusal(sample_rate_hz, many) is Some,
{
    let num = sample_rate_hz.num();
    assert(num * (few * 5088) <= num * (many * 5088)) by (nonlinear_arith)
        requires
            few <= many,
    ;
}

/// The four rates that have a control code are 48 kHz, doubled once for each step of it.
pub proof fn law_rate_codes_double(sample_rate_hz: Dyadic, code: u8)
    ensures
        rate_code(sample_rate_hz) == Some(code) <==> sample_rate_hz is Finite
            && !sample_rate_hz.below_zero() && code <= 3 && sample_rate_hz.num() == 48_000 * (
        if code == 0 {
            1int
        } else if code == 1 {
            2int
        } else if code == 2 {
            4int
        } else {
            8int
        }) * sample_rate_hz.den(),
{
    crate::dyadic::lemma_fraction_is_proper(sample_rate_hz);
    let den = sample_rate_hz.den() as int;
    assert(48_000nat * sample_rate_hz.den() == 48_000 * den);
    assert(96_000nat * sample_rate_hz.den() == 96_000 * den);
    assert(192_000nat * sample_rate_hz.den() == 192_000 * den);
    assert(384_000nat * sample_rate_hz.den() == 384_000 * den);
}

/// The general control word goes to address zero and tells the code of the rate and, in the
/// bits above the lowest three of the last byte, how many receivers there are beside the
/// first; nothing else is set.
pub proof fn law_general_words_are_readable(sample_rate_hz: Dyadic, num_receivers: usize)
    requires
        general_refusal(sample_rate_hz, num_receivers) is None,
    ensures
        ({
            let word = general_word(sample_rate_hz, num_receivers as int);
            &&& word.len() == 5
            &&& word[0] == 0 && word[2] == 0 && word[3] == 0
            &&& rate_code(sample_rate_hz) == Some(word[1])
            &&& word[4] % 8 == 0
            &&& word[4] / 8 + 1 == num_receivers
        }),
{
}

/// One link carries receivers as long as their samples, of 48 bits, and six per cent for
/// framing stay within 78.4 million bits a second; the general word names up to twelve.
pub proof fn law_what_a_link_carries(sample_rate_hz: Dyadic, ddc_count: usize)
    requires
        sample_rate_hz is Finite,
        !sample_rate_hz.below_zero(),
    ensures
        ddc_config_refusal(sample_rate_hz, ddc_count) is None <==> ddc_count > 0 && 106 * (48 * (
        ddc_count * sample_rate_hz.num())) <= 100 * (78_400_000 * sample_rate_hz.den()),
        ddc_count == 0 ==> ddc_config_refusal(sample_rate_hz, ddc_count) == Some(
            HpsdrError::NoReceivers,
        ),
        general_refusal(sample_rate_hz, ddc_count) is None <==> 1 <= ddc_count <= 12 && rate_code(
            sample_rate_hz,
        ) is Some,
{
    let num = sample_rate_hz.num();
    assert(num * (ddc_count * 5088) == 5088 * (ddc_count * num)) by (nonlinear_arith);
    assert(LINK_BUDGET_CENTIBITS * sample_rate_hz.den() == 7_840_000_000 * sample_rate_hz.den());
}

/// A datagram is taken if and only if it has its full length, both its frames start with the
/// three sync bytes, and there is a stream for every receiver.
pub proof fn law_only_whole_datagrams_are_taken(packet: Seq<u8>, receivers: usize, slots: usize)
    ensures
        packet_refusal(packet, receivers, slots) is None <==> {
            &&& packet.len() == 8 + 2 * 512
            &&& receivers <= slots
            &&& forall|k: int| 8 <= k < 11 || 520 <= k < 523 ==> #[trigger] packet[k] == 0x7F
        },
        packet.len() != 1032 <==> packet_refusal(packet, receivers, slots) is Some
            && packet_refusal(packet, receivers, slots)->0 is PacketLength,
{
    if packet_refusal(packet, receivers, slots) is None {
        assert(in_sync(packet, 0) && in_sync(packet, 1));
    } else if packet.len() == 1032 && receivers <= slots {
        assert(!in_sync(packet, 0) || !in_sync(packet, 1));
        if packet[8] == 0x7F && packet[9] == 0x7F && packet[10] == 0x7F {
            assert(packet[520] != 0x7F || packet[521] != 0x7F || packet[522] != 0x7F);
        }
    }
}

/// The control addresses of the receivers' frequencies follow each other, from 0x02 on for the
/// first seven receivers and from 0x12 on for the next five.
pub proof fn law_frequency_addresses_follow_the_receivers(rx: int)
    requires
        0 <= rx < 12,
    ensures
        freq_addr(0) == 0x02,
        freq_addr(7) == 0x12,
        rx != 0 && rx != 7 ==> freq_addr(rx) == freq_addr(rx - 1) + 1,
{
}

/// A receiver is tuned if and only if it is one of the first twelve and its frequency is a
/// number from zero to what 32 bits hold; a receiver beyond them is refused whatever its
/// frequency, and otherwise it is the frequency that is refused.
pub proof fn law_what_can_be_tuned(rx_index: usize, freq_hz: Dyadic)
    ensures
        freq_refusal(rx_index, freq_hz) is None <==> rx_index < 12 && freq_hz is Finite
            && !freq_hz.below_zero() && freq_hz.num() <= 0xFFFF_FFFF * freq_hz.den(),
        rx_index >= 12 <==> freq_refusal(rx_index, freq_hz) == Some(
            HpsdrError::NoFrequencyAddress { receiver: rx_index },
        ),
        rx_index < 12 && freq_refusal(rx_index, freq_hz) is Some ==> freq_refusal(rx_index, freq_hz)
            == Some(HpsdrError::FrequencyOutOfRange { receiver: rx_index }),
{
}

/// In a datagram the samples stand in turn: behind the header and the first frame's sub-header
/// the first receiver's first sample, six bytes on the next receiver's, two bytes behind the
/// last receiver's the next instant, and 512 bytes on the next frame.
pub proof fn law_samples_stand_in_turn(frame: int, s: int, receivers: int, rx: int)
    ensures
        sample_at(0, 0, receivers, 0) == 16,
        sample_at(frame, s, receivers, rx + 1) == sample_at(frame, s, receivers, rx) + 6,
        sample_at(frame, s + 1, receivers, 0) == sample_at(frame, s, receivers, receivers - 1) + 6
            + 2,
        sample_at(frame + 1, s, receivers, rx) == sample_at(frame, s, receivers, rx) + 512,
{
    assert((s + 1) * (receivers * 6 + 2) == s * (receivers * 6 + 2) + receivers * 6 + 2)
        by (nonlinear_arith);
    assert(0 * (receivers * 6 + 2) == 0) by (nonlinear_arith);
}

/// The samples of a receiver come out in the order of their instants, those of the first frame
/// before those of the second.
pub proof fn law_streams_run_through_the_frames(packet: Seq<u8>, receivers: nat, rx: int, k: int)
    requires
        0 <= k < 2 * instants_per_frame(receivers),
    ensures
        ({
            let per = instants_per_frame(receivers) as int;
            let at = if k < per {
                sample_at(0, k, receivers as int, rx)
            } else {
                sample_at(1, k - per, receivers as int, rx)
            };
            let out = stream(packet, receivers, rx, 2);
            &&& out.len() == 2 * per
            &&& out[k].i == i24(packet, at)
            &&& out[k].q == i24(packet, at + 3)
        }),
{
    let per = instants_per_frame(receivers) as int;
    if k < per {
        vstd::arithmetic::div_mod::lemma_fundamental_div_mod_converse(k, per, 0, k);
    } else {
        vstd::arithmetic::div_mod::lemma_fundamental_div_mod_converse(k, per, 1, k - per);
    }
}

/// A 24-bit number is read with its highest byte first, and lies between what 24 bits hold
/// below and above zero.
pub proof fn law_numbers_are_read_from_the_highest_byte(b: Seq<u8>, at: int)
    ensures
        -8_388_608 <= i24(b, at) <= 8_388_607,
        (i24(b, at) - (b[at] * 65_536 + b[at + 1] * 256 + b[at + 2])) % 16_777_216 == 0,
{
}

/// Control packets go to endpoint two of the device, and the command that starts the stream is
/// told from them by its third byte.
pub proof fn law_packets_start_as_the_device_expects(seq: u32, a: Seq<u8>, b: Seq<u8>)
    ensures
        ({
            let p = cc_packet(seq as int, a, b);
            &&& p[0] == 0xEF && p[1] == 0xFE && p[2] == 0x01 && p[3] == 0x02
        }),
        start_command().len() == 60,
        start_command()[0] == 0xEF && start_command()[1] == 0xFE && start_command()[2] == 0x04
            && start_command()[3] == 0x01,
        forall|k: int| 4 <= k < 60 ==> #[trigger] start_command()[k] == 0,
{
}

/// A frame holds as many instants as fit whole into its 504 bytes, six bytes for each receiver
/// and two more, and none where there is no receiver.
pub proof fn law_frames_hold_whole_instants(receivers: nat)
    ensures
        instants_per_frame(0) == 0,
        receivers > 0 ==> instants_per_frame(receivers) * (receivers * 6 + 2) <= 504 < (
        instants_per_frame(receivers) + 1) * (receivers * 6 + 2),
{
    if receivers > 0 {
        let d = (receivers * 6 + 2) as int;
        let q = 504int / d;
        vstd::arithmetic::div_mod::lemma_fundamental_div_mod(504, d);
        vstd::arithmetic::div_mod::lemma_mod_bound(504, d);
        assert((q + 1) * d == d * q + d) by (nonlinear_arith);
        assert(q * d == d * q) by (nonlinear_arith);
        assert(instants_per_frame(receivers) == q);
    }
}

/// Of a datagram that is refused for its sync bytes, what stands before them is taken over: the
/// first frame where only the second is out of sync, and nothing where the first is. Of any
/// other that is refused nothing is, and of one that is not, both frames are.
pub proof fn law_what_is_taken_of_a_datagram(packet: Seq<u8>, receivers: usize, slots: usize)
    ensures
        frames_taken(packet, receivers, slots) <= 2,
        frames_taken(packet, receivers, slots) == 2 <==> packet_refusal(packet, receivers, slots)
            is None,
        frames_taken(packet, receivers, slots) == 1 <==> packet_refusal(packet, receivers, slots)
            == Some(HpsdrError::BadSync { frame: 1 }),
        packet_refusal(packet, receivers, slots) == Some(HpsdrError::BadSync { frame: 1 }) ==> {
            &&& packet.len() == 1032 && receivers <= slots
            &&& packet[8] == 0x7F && packet[9] == 0x7F && packet[10] == 0x7F
        },
{
    if packet_refusal(packet, receivers, slots) == Some(HpsdrError::BadSync { frame: 1 }) {
        assert(in_sync(packet, 0));
    }
}

} // verus!
