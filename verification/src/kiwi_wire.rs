//! What goes over the wire to and from a KiwiSDR receiver: its frames, and the text of the
//! commands it is sent.
//!
//! Every frame starts with a three-letter tag. `SND` carries IQ samples behind a 17-byte
//! header (flags, sequence number, S-meter, GPS block); `MSG` carries parameters as text,
//! `key=value` between white space.

use vstd::prelude::*;
use vstd::utf8::*;

verus! {

/// The rate to which samples are brought.
pub const TARGET_RATE_HZ: usize = 96_000;

/// Bytes of an `SND` frame before its samples, without the tag.
pub const SND_HEADER_LEN: usize = 17;

/// One sample of the receiver.
#[derive(Debug, Clone, Copy, PartialEq, Eq, Structural)]
pub struct IqPair {
    pub i: i16,
    pub q: i16,
}

/// A frame as it comes in.
#[derive(Debug)]
pub enum KiwiFrame {
    Binary(Vec<u8>),
    Text,
    Ping,
    Pong,
    Raw,
    Close,
}

/// What a frame is good for.
#[derive(Debug)]
pub enum Dispatch {
    /// Samples, at least one.
    Samples(Vec<IqPair>),
    /// Parameters.
    Parameters(String),
    /// Nothing.
    Unusable,
    /// The connection is over.
    Ended,
}

/// The number that two bytes stand for, in two's complement.
pub open spec fn i16_of(high: u8, low: u8) -> int {
    let raw = high * 256 + low;
    if raw >= 32_768 {
        raw - 65_536
    } else {
        raw
    }
}

/// How many samples an `SND` body holds.
pub open spec fn snd_count(body: Seq<u8>) -> nat {
    if body.len() <= 17 {
        0
    } else {
        ((body.len() - 17) / 4) as nat
    }
}

/// One sample of an `SND` body. The flag 0x80 says that numbers start with the low byte.
pub open spec fn snd_sample(body: Seq<u8>, k: int) -> IqPair {
    let at = 17 + k * 4;
    if body[0] >= 0x80 {
        IqPair {
            i: i16_of(body[at + 1], body[at]) as i16,
            q: i16_of(body[at + 3], body[at + 2]) as i16,
        }
    } else {
        IqPair {
            i: i16_of(body[at], body[at + 1]) as i16,
            q: i16_of(body[at + 2], body[at + 3]) as i16,
        }
    }
}

/// The samples of an `SND` body.
pub open spec fn snd_samples(body: Seq<u8>) -> Seq<IqPair> {
    Seq::new(snd_count(body), |k: int| snd_sample(body, k))
}

fn decode_i16(high: u8, low: u8) -> (v: i16)
    ensures
        v == i16_of(high, low),
{
    let raw: i32 = high as i32 * 256 + low as i32;
    if raw >= 32_768 {
        (raw - 65_536) as i16
    } else {
        raw as i16
    }
}

/// The samples of an `SND` frame, which starts at `from` in `frame`, behind the tag. A frame
/// without a whole sample behind its header has none.
pub fn parse_snd_frame(frame: &[u8], from: usize) -> (out: Vec<IqPair>)
    requires
        from <= frame@.len(),
    ensures
        out@ == snd_samples(frame@.skip(from as int)),
{
    let ghost body = frame@.skip(from as int);
    let mut out: Vec<IqPair> = Vec::new();
    let len: usize = frame.len() - from;
    if len <= SND_HEADER_LEN {
        assert(out@ =~= snd_samples(body));
        return out;
    }
    let little_endian: bool = frame[from] >= 0x80;
    let n: usize = (len - SND_HEADER_LEN) / 4;
    let mut k: usize = 0;
    while k < n
        invariant
            k <= n,
            n == (len - 17) / 4,
            len == frame@.len() - from,
            len > 17,
            from <= frame@.len() <= usize::MAX,
            body == frame@.skip(from as int),
            little_endian == (body[0] >= 0x80),
            out@.len() == k,
            forall|j: int| 0 <= j < k ==> out@[j] == #[trigger] snd_sample(body, j),
        decreases n - k,
    {
        let at: usize = from + SND_HEADER_LEN + k * 4;
        let (a, b, c, d) = (frame[at], frame[at + 1], frame[at + 2], frame[at + 3]);
        let s: IqPair = if little_endian {
            IqPair { i: decode_i16(b, a), q: decode_i16(d, c) }
        } else {
            IqPair { i: decode_i16(a, b), q: decode_i16(c, d) }
        };
        assert(s == snd_sample(body, k as int));
        out.push(s);
        k = k + 1;
    }
    assert(out@ =~= snd_samples(body));
    out
}

/// What `String::from_utf8_lossy` makes of bytes.
pub uninterp spec fn lossy_text(bytes: Seq<u8>) -> Seq<char>;

/// `String::from_utf8_lossy`, on what stands behind the first `from` bytes. It depends on the
/// bytes alone, and changes nothing of text that is valid; what stands for a byte that is
/// not valid is left to it.
#[verifier::external_body]
fn decode_lossy(frame: &[u8], from: usize) -> (text: String)
    requires
        from <= frame@.len(),
    ensures
        text@ == lossy_text(frame@.skip(from as int)),
        valid_utf8(frame@.skip(from as int)) ==> text@ == decode_utf8(frame@.skip(from as int)),
{
    String::from_utf8_lossy(&frame[from..]).into_owned()
}

/// The frame starts with the three letters.
pub open spec fn tagged(frame: Seq<u8>, a: u8, b: u8, c: u8) -> bool {
    frame.len() >= 3 && frame[0] == a && frame[1] == b && frame[2] == c
}

/// What a frame is good for.
pub open spec fn dispatched(frame: KiwiFrame, d: Dispatch) -> bool {
    match frame {
        KiwiFrame::Binary(b) => {
            let body = b@.skip(3);
            if tagged(b@, 'S' as u8, 'N' as u8, 'D' as u8) {
                if snd_count(body) == 0 {
                    d is Unusable
                } else {
                    d matches Dispatch::Samples(s) && s@ == snd_samples(body)
                }
            } else if tagged(b@, 'M' as u8, 'S' as u8, 'G' as u8) {
                d matches Dispatch::Parameters(t) && t@ == lossy_text(body)
            } else {
                d is Unusable
            }
        },
        KiwiFrame::Close => d is Ended,
        _ => d is Unusable,
    }
}

/// Tells what a frame is good for.
pub fn classify(frame: &KiwiFrame) -> (d: Dispatch)
    ensures
        dispatched(*frame, d),
{
    match frame {
        KiwiFrame::Binary(b) => {
            if b.len() < 3 {
                return Dispatch::Unusable;
            }
            if b[0] == 0x53 && b[1] == 0x4E && b[2] == 0x44 {
                let samples: Vec<IqPair> = parse_snd_frame(b.as_slice(), 3);
                if samples.len() == 0 {
                    Dispatch::Unusable
                } else {
                    Dispatch::Samples(samples)
                }
            } else if b[0] == 0x4D && b[1] == 0x53 && b[2] == 0x47 {
                Dispatch::Parameters(decode_lossy(b.as_slice(), 3))
            } else {
                Dispatch::Unusable
            }
        },
        KiwiFrame::Close => Dispatch::Ended,
        _ => Dispatch::Unusable,
    }
}

/// White space, as Unicode has it.
pub open spec fn white(c: char) -> bool {
    ||| 0x09 <= c as int <= 0x0D
    ||| c as int == 0x20
    ||| c as int == 0x85
    ||| c as int == 0xA0
    ||| c as int == 0x1680
    ||| 0x2000 <= c as int <= 0x200A
    ||| c as int == 0x2028
    ||| c as int == 0x2029
    ||| c as int == 0x202F
    ||| c as int == 0x205F
    ||| c as int == 0x3000
}

fn is_white(c: char) -> (yes: bool)
    ensures
        yes == white(c),
{
    let n: u32 = c as u32;
    (0x09 <= n && n <= 0x0D) || n == 0x20 || n == 0x85 || n == 0xA0 || n == 0x1680 || (0x2000 <= n
        && n <= 0x200A) || n == 0x2028 || n == 0x2029 || n == 0x202F || n == 0x205F || n == 0x3000
}

/// A word starts at `at`.
pub open spec fn word_start(text: Seq<char>, at: int) -> bool {
    !white(text[at]) && (at == 0 || white(text[at - 1]))
}

/// Where the word that holds `at` ends: at the next white space, or with the text.
pub open spec fn word_end(text: Seq<char>, at: int) -> int
    decreases text.len() - at,
{
    if at >= text.len() {
        text.len() as int
    } else if white(text[at]) {
        at
    } else {
        word_end(text, at + 1)
    }
}

/// A word starts at `at` that starts with `prefix`.
pub open spec fn word_with_prefix(text: Seq<char>, prefix: Seq<char>, at: int) -> bool {
    &&& word_start(text, at)
    &&& at + prefix.len() <= word_end(text, at)
    &&& text.subrange(at, at + prefix.len() as int) == prefix
}

/// What follows `prefix` in the first word from `from` on that starts with it.
pub open spec fn value_from(text: Seq<char>, prefix: Seq<char>, from: int) -> Option<Seq<char>>
    decreases text.len() - from,
{
    if from >= text.len() {
        None
    } else if word_with_prefix(text, prefix, from) {
        Some(text.subrange(from + prefix.len(), word_end(text, from)))
    } else {
        value_from(text, prefix, from + 1)
    }
}

/// The value of `key` in parameters: of the first word that starts with `key=`, the rest.
pub open spec fn kv_value(text: Seq<char>, key: Seq<char>) -> Option<Seq<char>> {
    value_from(text, key.push('='), 0)
}

fn to_chars(text: &str) -> (chars: Vec<char>)
    ensures
        chars@ == text@,
{
    let mut chars: Vec<char> = Vec::new();
    for c in it: text.chars()
        invariant
            it.seq() == text@,
            chars@ == text@.take(it.index()),
    {
        proof {
            assert(text@.take(it.index() + 1) =~= text@.take(it.index()).push(c));
        }
        chars.push(c);
    }
    assert(text@.take(text@.len() as int) =~= text@);
    chars
}

fn find_word_end(chars: &Vec<char>, at: usize) -> (end: usize)
    requires
        at <= chars@.len(),
    ensures
        end == word_end(chars@, at as int),
        at <= end <= chars@.len(),
{
    let mut end: usize = at;
    while end < chars.len() && !is_white(chars[end])
        invariant
            at <= end <= chars@.len(),
            word_end(chars@, at as int) == word_end(chars@, end as int),
        decreases chars@.len() - end,
    {
        end = end + 1;
    }
    end
}

fn starts_with(chars: &Vec<char>, at: usize, prefix: &Vec<char>) -> (yes: bool)
    requires
        at + prefix@.len() <= chars@.len(),
    ensures
        yes == (chars@.subrange(at as int, at + prefix@.len()) == prefix@),
{
    let ghost part = chars@.subrange(at as int, at + prefix@.len());
    let n: usize = chars.len();
    let mut k: usize = 0;
    while k < prefix.len()
        invariant
            k <= prefix@.len(),
            at + prefix@.len() <= chars@.len() == n,
            part == chars@.subrange(at as int, at + prefix@.len()),
            forall|j: int| 0 <= j < k ==> part[j] == prefix@[j],
        decreases prefix@.len() - k,
    {
        if chars[at + k] != prefix[k] {
            assert(part[k as int] != prefix@[k as int]);
            return false;
        }
        k = k + 1;
    }
    assert(part =~= prefix@);
    true
}

/// The value of `key` in parameters.
pub fn parse_kv(text: &str, key: &str) -> (value: Option<String>)
    ensures
        match kv_value(text@, key@) {
            Some(v) => value is Some && value->0@ == v,
            None => value is None,
        },
{
    let chars: Vec<char> = to_chars(text);
    let mut prefix: Vec<char> = to_chars(key);
    prefix.push('=');
    let n: usize = chars.len();
    let plen: usize = prefix.len();
    let mut at: usize = 0;
    while at < n
        invariant
            at <= n,
            n == chars@.len(),
            chars@ == text@,
            prefix@ == key@.push('='),
            plen == prefix@.len(),
            kv_value(text@, key@) == value_from(text@, prefix@, at as int),
        decreases n - at,
    {
        if !is_white(chars[at]) && (at == 0 || is_white(chars[at - 1])) {
            let end: usize = find_word_end(&chars, at);
            if plen <= end - at && starts_with(&chars, at, &prefix) {
                return Some(text.substring_char(at + plen, end).to_owned());
            }
        }
        at = at + 1;
    }
    None
}

/// A digit.
pub open spec fn digit(d: int) -> char {
    (48 + d) as char
}

/// A number in decimal.
pub open spec fn decimal(n: nat) -> Seq<char>
    decreases n,
{
    if n < 10 {
        seq![digit(n as int)]
    } else {
        decimal(n / 10).push(digit((n % 10) as int))
    }
}

/// A number in decimal, with its sign where it is negative.
pub open spec fn signed_decimal(n: int) -> Seq<char> {
    if n < 0 {
        seq!['-'] + decimal((-n) as nat)
    } else {
        decimal(n as nat)
    }
}

fn digit_text(d: u64) -> (s: &'static str)
    requires
        d < 10,
    ensures
        s@ == seq![digit(d as int)],
{
    proof {
        reveal_strlit("0");
        reveal_strlit("1");
        reveal_strlit("2");
        reveal_strlit("3");
        reveal_strlit("4");
        reveal_strlit("5");
        reveal_strlit("6");
        reveal_strlit("7");
        reveal_strlit("8");
        reveal_strlit("9");
    }
    let s: &'static str = match d {
        0 => "0",
        1 => "1",
        2 => "2",
        3 => "3",
        4 => "4",
        5 => "5",
        6 => "6",
        7 => "7",
        8 => "8",
        _ => "9",
    };
    assert(s@ =~= seq![digit(d as int)]);
    s
}

fn write_decimal(n: u64) -> (s: String)
    ensures
        s@ == decimal(n as nat),
    decreases n,
{
    if n < 10 {
        digit_text(n).to_owned()
    } else {
        let mut s: String = write_decimal(n / 10);
        s.append(digit_text(n % 10));
        assert(s@ =~= decimal((n / 10) as nat).push(digit((n % 10) as int)));
        s
    }
}

fn write_signed(n: i64) -> (s: String)
    ensures
        s@ == signed_decimal(n as int),
{
    if n < 0 {
        proof {
            reveal_strlit("-");
        }
        let mut s: String = "-".to_owned();
        let size: u64 = (-(n as i128)) as u64;
        let digits: String = write_decimal(size);
        s.append(digits.as_str());
        assert(s@ =~= seq!['-'] + decimal((-(n as int)) as nat));
        s
    } else {
        write_decimal(n as u64)
    }
}

/// The command that names the user to the receiver.
pub fn auth_command(password: &str) -> (s: String)
    ensures
        s@ == "SET auth t=kiwi p="@ + password@,
{
    let mut s: String = "SET auth t=kiwi p=".to_owned();
    s.append(password);
    s
}

/// The command that accepts the audio rate, without which no samples come: the rate without
/// its fraction, and the rate that is wanted.
pub fn ack_command(audio_rate: i64) -> (s: String)
    ensures
        s@ == ack_text(audio_rate as int),
{
    let mut s: String = "SET AR OK in=".to_owned();
    let rate: String = write_signed(audio_rate);
    s.append(rate.as_str());
    s.append(" out=96000");
    s
}

/// The text that accepts an audio rate.
pub open spec fn ack_text(audio_rate: int) -> Seq<char> {
    "SET AR OK in="@ + signed_decimal(audio_rate) + " out=96000"@
}

/// How many commands set up a receiver whose rate is known.
pub const SETUP_COMMANDS: usize = 8;

/// The commands that set up a receiver, in order. `freq_khz` is the frequency in kHz, with
/// three decimals.
pub open spec fn setup_text(k: int, freq_khz: Seq<char>) -> Seq<char> {
    if k == 0 {
        "SET ident_user=manta"@
    } else if k == 1 {
        "SET mod=iq low_cut=-5000 high_cut=5000 freq="@ + freq_khz
    } else if k == 2 {
        "SET agc=1 hang=0 thresh=-100 slope=6 decay=1000 manGain=50"@
    } else if k == 3 {
        "SET squelch=0 max=0"@
    } else if k == 4 {
        "SET genattn=0"@
    } else if k == 5 {
        "SET gen=0 mix=-1"@
    } else if k == 6 {
        "SET compression=0"@
    } else {
        "SET keepalive"@
    }
}

/// One of the commands that set up a receiver.
pub fn setup_command(k: usize, freq_khz: &str) -> (s: String)
    requires
        k < SETUP_COMMANDS,
    ensures
        s@ == setup_text(k as int, freq_khz@),
{
    match k {
        0 => "SET ident_user=manta".to_owned(),
        1 => {
            let mut s: String = "SET mod=iq low_cut=-5000 high_cut=5000 freq=".to_owned();
            s.append(freq_khz);
            s
        },
        2 => "SET agc=1 hang=0 thresh=-100 slope=6 decay=1000 manGain=50".to_owned(),
        3 => "SET squelch=0 max=0".to_owned(),
        4 => "SET genattn=0".to_owned(),
        5 => "SET gen=0 mix=-1".to_owned(),
        6 => "SET compression=0".to_owned(),
        _ => "SET keepalive".to_owned(),
    }
}

/// The command that keeps the receiver sending.
pub fn keepalive_command() -> (s: String)
    ensures
        s@ == "SET keepalive"@,
{
    "SET keepalive".to_owned()
}

/// The two bytes of a number, the high one first.
pub open spec fn i16_bytes(v: int) -> (u8, u8) {
    let raw = v % 65_536;
    ((raw / 256) as u8, (raw % 256) as u8)
}

/// An `SND` body that carries `samples` behind some header, its numbers with the low byte
/// first where `little_endian` says so.
pub open spec fn snd_body(header: Seq<u8>, samples: Seq<IqPair>, little_endian: bool) -> Seq<u8> {
    header + Seq::new(
        4 * samples.len(),
        |b: int|
            {
                let s = samples[b / 4];
                let (high, low) = i16_bytes(
                    if b % 4 < 2 {
                        s.i as int
                    } else {
                        s.q as int
                    },
                );
                if (b % 2 == 0) != little_endian {
                    high
                } else {
                    low
                }
            },
    )
}

/// The samples of a frame come back, in either byte order.
pub proof fn law_snd_samples_come_back(
    header: Seq<u8>,
    samples: Seq<IqPair>,
    little_endian: bool,
)
    requires
        header.len() == 17,
        little_endian == (header[0] >= 0x80),
    ensures
        snd_samples(snd_body(header, samples, little_endian)) == samples,
{
    let body = snd_body(header, samples, little_endian);
    let got = snd_samples(body);
    assert(snd_count(body) == samples.len());
    assert forall|k: int| 0 <= k < samples.len() implies got[k] == samples[k] by {
        let at = 17 + k * 4;
        assert((4 * k) / 4 == k && (4 * k + 1) / 4 == k && (4 * k + 2) / 4 == k && (4 * k + 3) / 4
            == k);
        assert((4 * k) % 4 == 0 && (4 * k + 1) % 4 == 1 && (4 * k + 2) % 4 == 2 && (4 * k + 3) % 4
            == 3);
        lemma_i16_comes_back(samples[k].i as int);
        lemma_i16_comes_back(samples[k].q as int);
        let (ih, il) = i16_bytes(samples[k].i as int);
        let (qh, ql) = i16_bytes(samples[k].q as int);
        if little_endian {
            assert(body[at] == il && body[at + 1] == ih && body[at + 2] == ql && body[at + 3]
                == qh);
        } else {
            assert(body[at] == ih && body[at + 1] == il && body[at + 2] == qh && body[at + 3]
                == ql);
        }
    }
    assert(got =~= samples);
}

proof fn lemma_i16_comes_back(v: int)
    requires
        -32_768 <= v <= 32_767,
    ensures
        i16_of(i16_bytes(v).0, i16_bytes(v).1) == v,
{
    let raw = v % 65_536;
    assert(raw == if v < 0 { v + 65_536 } else { v });
    assert(0 <= raw / 256 < 256 && 0 <= raw % 256 < 256 && raw == raw / 256 * 256 + raw % 256);
}

/// The value of a parameter is found at the start of the text and behind a blank, and goes up
/// to the next blank or to the end.
pub proof fn law_a_parameter_is_found(key: Seq<char>, value: Seq<char>, rest: Seq<char>)
    requires
        forall|k: int| 0 <= k < key.len() ==> !white(#[trigger] key[k]),
        forall|k: int| 0 <= k < value.len() ==> !white(#[trigger] value[k]),
    ensures
        kv_value(key.push('=') + value + seq![' '] + rest, key) == Some(value),
        kv_value(key.push('=') + value, key) == Some(value),
        kv_value(seq![' '] + key.push('=') + value, key) == Some(value),
{
    let p = key.push('=');
    let a = p + value + seq![' '] + rest;
    let b = p + value;
    let c = seq![' '] + p + value;
    lemma_word_ends(a, 0, (p + value).len() as int);
    lemma_word_ends(b, 0, (p + value).len() as int);
    lemma_word_ends(c, 1, (p + value).len() as int + 1);
    assert(a.subrange(0, p.len() as int) =~= p);
    assert(b.subrange(0, p.len() as int) =~= p);
    assert(c.subrange(1, 1 + p.len() as int) =~= p);
    assert(a.subrange(p.len() as int, (p + value).len() as int) =~= value);
    assert(b.subrange(p.len() as int, (p + value).len() as int) =~= value);
    assert(c.subrange(1 + p.len() as int, 1 + (p + value).len() as int) =~= value);
    assert(white(c[0]));
    reveal_with_fuel(value_from, 2);
}

proof fn lemma_word_ends(text: Seq<char>, at: int, end: int)
    requires
        0 <= at <= end <= text.len(),
        forall|k: int| at <= k < end ==> !white(#[trigger] text[k]),
        end < text.len() ==> white(text[end]),
    ensures
        word_end(text, at) == end,
    decreases end - at,
{
    if at < end {
        lemma_word_ends(text, at + 1, end);
    }
}

/// What follows a key is found in the first word that starts with it, and nowhere else: a
/// value comes from some word that starts with the key and an equals sign, runs to the end of
/// that word, and no earlier word starts so; where there is none, no word does.
pub proof fn law_the_first_matching_word_counts(text: Seq<char>, key: Seq<char>)
    ensures
        kv_value(text, key) is Some ==> exists|at: int|
            {
                &&& #[trigger] starts_word_with(text, key.push('='), at)
                &&& kv_value(text, key)->0 == text.subrange(
                    at + key.len() + 1,
                    word_end(text, at),
                )
                &&& forall|earlier: int|
                    earlier < at ==> !#[trigger] starts_word_with(text, key.push('='), earlier)
            },
        kv_value(text, key) is None ==> forall|at: int|
            !#[trigger] starts_word_with(text, key.push('='), at),
{
    lemma_value_from(text, key.push('='), 0);
}

/// At `at`, at the start of the text or behind white space, stands a word that starts with
/// `prefix`.
pub open spec fn starts_word_with(text: Seq<char>, prefix: Seq<char>, at: int) -> bool {
    &&& 0 <= at
    &&& at + prefix.len() <= text.len()
    &&& at < text.len()
    &&& at == 0 || white(text[at - 1])
    &&& !white(text[at])
    &&& forall|k: int| 0 <= k < prefix.len() ==> #[trigger] prefix[k] == text[at + k]
    &&& forall|k: int| at <= k < at + prefix.len() ==> !white(#[trigger] text[k])
}

proof fn lemma_word_end(text: Seq<char>, at: int)
    requires
        0 <= at <= text.len(),
    ensures
        at <= word_end(text, at) <= text.len(),
        forall|k: int| at <= k < word_end(text, at) ==> !white(#[trigger] text[k]),
        word_end(text, at) < text.len() ==> white(text[word_end(text, at)]),
    decreases text.len() - at,
{
    if at < text.len() && !white(text[at]) {
        lemma_word_end(text, at + 1);
    }
}

proof fn lemma_starts_word(text: Seq<char>, prefix: Seq<char>, at: int)
    requires
        0 <= at < text.len(),
    ensures
        word_with_prefix(text, prefix, at) <==> starts_word_with(text, prefix, at),
{
    lemma_word_end(text, at);
    let part = text.subrange(at, at + prefix.len() as int);
    if starts_word_with(text, prefix, at) {
        assert(part =~= prefix) by {
            assert forall|k: int| 0 <= k < prefix.len() implies part[k] == prefix[k] by {
                assert(prefix[k] == text[at + k]);
            }
        }
        if word_end(text, at) < at + prefix.len() {
            assert(white(text[word_end(text, at)]));
        }
    }
    if word_with_prefix(text, prefix, at) {
        assert forall|k: int| 0 <= k < prefix.len() implies #[trigger] prefix[k] == text[at + k] by {
            assert(part[k] == prefix[k]);
        }
    }
}

proof fn lemma_value_from(text: Seq<char>, prefix: Seq<char>, from: int)
    requires
        0 <= from,
        forall|earlier: int| earlier < from ==> !#[trigger] starts_word_with(text, prefix, earlier),
    ensures
        value_from(text, prefix, from) is Some ==> exists|at: int|
            {
                &&& #[trigger] starts_word_with(text, prefix, at)
                &&& value_from(text, prefix, from)->0 == text.subrange(
                    at + prefix.len(),
                    word_end(text, at),
                )
                &&& forall|earlier: int|
                    earlier < at ==> !#[trigger] starts_word_with(text, prefix, earlier)
            },
        value_from(text, prefix, from) is None ==> forall|at: int|
            !#[trigger] starts_word_with(text, prefix, at),
    decreases text.len() - from,
{
    if from < text.len() {
        lemma_starts_word(text, prefix, from);
        if !word_with_prefix(text, prefix, from) {
            lemma_value_from(text, prefix, from + 1);
        }
    }
}

/// A word goes on to the next white space, or to the end of the text.
pub proof fn law_words_end_at_white_space(text: Seq<char>, at: int)
    requires
        0 <= at <= text.len(),
    ensures
        at <= word_end(text, at) <= text.len(),
        forall|k: int| at <= k < word_end(text, at) ==> !white(#[trigger] text[k]),
        word_end(text, at) < text.len() ==> white(text[word_end(text, at)]),
{
    lemma_word_end(text, at);
}

/// The number that a text of digits stands for.
pub open spec fn number_of(text: Seq<char>) -> int
    decreases text.len(),
{
    if text.len() == 0 {
        0
    } else {
        number_of(text.drop_last()) * 10 + (text.last() as int - '0' as int)
    }
}

/// A number is written so that it can be read back, in digits, without a leading zero, and with
/// a sign in front where it is below zero.
pub proof fn law_numbers_are_written_to_be_read(n: nat)
    ensures
        number_of(decimal(n)) == n,
        decimal(n).len() > 0,
        forall|k: int| 0 <= k < decimal(n).len() ==> '0' <= #[trigger] decimal(n)[k] <= '9',
        n > 0 ==> decimal(n)[0] != '0',
        signed_decimal(n as int) == decimal(n),
        n > 0 ==> signed_decimal(-(n as int)) == seq!['-'] + decimal(n),
    decreases n,
{
    if n >= 10 {
        law_numbers_are_written_to_be_read(n / 10);
        assert(decimal(n).drop_last() =~= decimal(n / 10));
        assert(decimal(n).last() as int == 48 + n % 10);
        assert(number_of(decimal(n).drop_last()) == n / 10);
        assert forall|k: int| 0 <= k < decimal(n).len() implies '0' <= #[trigger] decimal(n)[k]
            <= '9' by {
            if k < decimal(n / 10).len() {
                assert(decimal(n)[k] == decimal(n / 10)[k]);
            }
        }
    } else {
        assert(decimal(n).drop_last() =~= Seq::<char>::empty());
        assert(decimal(n).last() as int == 48 + n);
        assert(number_of(decimal(n).drop_last()) == 0);
    }
}

/// A frame with the letters `SND`, a header and at least one sample is good for its samples, in
/// order; one with the letters `MSG` and valid text for its parameters; a closed connection is
/// over; and a frame with neither tag is good for nothing.
pub proof fn law_frames_are_told_by_their_tags(
    frame: KiwiFrame,
    d: Dispatch,
    header: Seq<u8>,
    samples: Seq<IqPair>,
    little_endian: bool,
    rest: Seq<u8>,
)
    requires
        dispatched(frame, d),
        header.len() == 17,
        little_endian == (header[0] >= 0x80),
    ensures
        frame matches KiwiFrame::Binary(b) ==> {
            &&& b@ == seq![0x53u8, 0x4Eu8, 0x44u8] + snd_body(header, samples, little_endian)
                ==> if samples.len() > 0 {
                d matches Dispatch::Samples(s) && s@ == samples
            } else {
                d is Unusable
            }
            &&& b@ == seq![0x4Du8, 0x53u8, 0x47u8] + rest ==> (d matches Dispatch::Parameters(t)
                && t@ == lossy_text(rest))
            &&& b@.len() < 3 ==> d is Unusable
            &&& b@.len() >= 3 && b@.subrange(0, 3) != seq![0x53u8, 0x4Eu8, 0x44u8] && b@.subrange(
                0,
                3,
            ) != seq![0x4Du8, 0x53u8, 0x47u8] ==> d is Unusable
        },
        frame is Close <==> d is Ended,
        frame is Text || frame is Ping || frame is Pong || frame is Raw ==> d is Unusable,
{
    if let KiwiFrame::Binary(b) = frame {
        let snd = seq![0x53u8, 0x4Eu8, 0x44u8];
        let msg = seq![0x4Du8, 0x53u8, 0x47u8];
        let body = snd_body(header, samples, little_endian);
        if b@ == snd + body {
            assert(b@.skip(3) =~= body);
            law_snd_samples_come_back(header, samples, little_endian);
            assert(snd_samples(body).len() == samples.len());
        }
        if b@ == msg + rest {
            assert(b@.skip(3) =~= rest);
        }
        if b@.len() >= 3 {
            if tagged(b@, 'S' as u8, 'N' as u8, 'D' as u8) {
                assert(b@.subrange(0, 3) =~= snd);
            }
            if tagged(b@, 'M' as u8, 'S' as u8, 'G' as u8) {
                assert(b@.subrange(0, 3) =~= msg);
            }
        }
    }
}

/// White space are the tab and the line breaks of ASCII, the blank, and the blanks and line
/// breaks beyond it.
pub proof fn law_what_white_space_is(c: char)
    ensures
        white(c) <==> seq![
            9int, 10, 11, 12, 13, 32, 133, 160, 5760, 8192, 8193, 8194, 8195, 8196, 8197, 8198,
            8199, 8200, 8201, 8202, 8232, 8233, 8239, 8287, 12288,
        ].contains(c as int),
{
    let all = seq![
        9int, 10, 11, 12, 13, 32, 133, 160, 5760, 8192, 8193, 8194, 8195, 8196, 8197, 8198, 8199,
        8200, 8201, 8202, 8232, 8233, 8239, 8287, 12288,
    ];
    let n = c as int;
    if white(c) {
        let at = if n <= 13 {
            n - 9
        } else if n == 32 {
            5
        } else if n == 133 {
            6
        } else if n == 160 {
            7
        } else if n == 5760 {
            8
        } else if n <= 8202 {
            n - 8192 + 9
        } else if n <= 8233 {
            n - 8232 + 20
        } else if n == 8239 {
            22
        } else if n == 8287 {
            23
        } else {
            24int
        };
        assert(all[at] == n);
    }
}

} // verus!
