//! Lowering the rate of a source: by what factor, and how what comes out is handed on.
//!
//! The filter itself works on floating-point numbers and is not here. What is not handed out
//! at once is kept for the next read, so that no sample is lost.

use crate::dyadic::Dyadic;
use crate::report::Sample;
use vstd::prelude::*;

verus! {

/// Why a rate cannot be lowered to another.
#[derive(Debug, Clone, Copy, PartialEq, Eq, Structural)]
pub enum DecimationError {
    /// The one does not divide the other.
    Uneven,
}

/// The factor by which a rate is lowered: `quotient`, the one rate by the other, rounded.
/// Zero is no factor.
pub fn decimation_factor(quotient: Dyadic) -> (r: Result<usize, DecimationError>)
    ensures
        r == (if quotient.as_count() == 0 {
            Err::<usize, DecimationError>(DecimationError::Uneven)
        } else {
            Ok::<usize, DecimationError>(quotient.as_count() as usize)
        }),
{
    let factor: usize = quotient.to_count();
    if factor == 0 {
        Err(DecimationError::Uneven)
    } else {
        Ok(factor)
    }
}

/// The number is more than a millionth away from zero.
pub open spec fn over_a_millionth(rest: Dyadic) -> bool {
    match rest {
        Dyadic::NotANumber => false,
        Dyadic::Infinite { .. } => true,
        Dyadic::Finite { .. } => rest.num() * 1_000_000 > rest.den(),
    }
}

/// The factor is right where `rest`, by which the lowered rate misses the one that is wanted,
/// is no more than a millionth of a sample per second.
pub fn check_evenness(rest: Dyadic) -> (r: Result<(), DecimationError>)
    ensures
        r == (if over_a_millionth(rest) {
            Err::<(), DecimationError>(DecimationError::Uneven)
        } else {
            Ok::<(), DecimationError>(())
        }),
{
    let size: Dyadic = match rest {
        Dyadic::NotANumber => Dyadic::NotANumber,
        Dyadic::Infinite { .. } => Dyadic::Infinite { negative: false },
        Dyadic::Finite { mantissa, exponent, .. } => Dyadic::Finite {
            negative: false,
            mantissa,
            exponent,
        },
    };
    if size.scaled_exceeds(1_000_000, 1) {
        Err(DecimationError::Uneven)
    } else {
        Ok(())
    }
}

/// What comes next in a read.
#[derive(Debug, Clone, Copy, PartialEq, Eq, Structural)]
pub enum DecimateStep {
    /// Read up to so many samples of the source, and lower their rate.
    Fetch(usize),
    /// Hand out what is there.
    Ready,
}

/// Samples of lowered rate on their way to the caller.
pub struct DecimatingSource {
    factor: usize,
    pending: Vec<Sample>,
}

impl DecimatingSource {
    /// By how much the rate is lowered.
    pub closed spec fn factor(&self) -> usize {
        self.factor
    }

    /// What waits for the caller.
    pub closed spec fn pending(&self) -> Seq<Sample> {
        self.pending@
    }

    /// Nothing waits yet.
    pub fn new(factor: usize) -> (d: DecimatingSource)
        ensures
            d.factor() == factor,
            d.pending() == Seq::<Sample>::empty(),
    {
        DecimatingSource { factor, pending: Vec::new() }
    }

    /// What a read of up to `max` samples needs: where nothing waits, as many samples of the
    /// source as make `max` of them, and those of one at least.
    pub fn next(&self, max: usize) -> (step: DecimateStep)
        requires
            max * self.factor() <= usize::MAX,
        ensures
            step == (if self.pending().len() > 0 {
                DecimateStep::Ready
            } else if max == 0 {
                DecimateStep::Fetch(self.factor())
            } else {
                DecimateStep::Fetch((max * self.factor()) as usize)
            }),
    {
        if self.pending.len() > 0 {
            DecimateStep::Ready
        } else if max == 0 {
            DecimateStep::Fetch(self.factor)
        } else {
            DecimateStep::Fetch(max * self.factor)
        }
    }

    /// Takes over samples of lowered rate.
    pub fn supply(&mut self, decimated: Vec<Sample>)
        ensures
            final(self).factor() == old(self).factor(),
            final(self).pending() == old(self).pending() + decimated@,
    {
        let mut decimated = decimated;
        self.pending.append(&mut decimated);
    }

    /// Hands out up to `max` samples, the oldest first, and keeps the others.
    pub fn take(&mut self, max: usize) -> (out: Vec<Sample>)
        ensures
            final(self).factor() == old(self).factor(),
            ({
                let n = if old(self).pending().len() < max {
                    old(self).pending().len() as int
                } else {
                    max as int
                };
                &&& out@ == old(self).pending().take(n)
                &&& final(self).pending() == old(self).pending().skip(n)
            }),
    {
        let n: usize = if self.pending.len() < max {
            self.pending.len()
        } else {
            max
        };
        let mut rest: Vec<Sample> = self.pending.split_off(n);
        std::mem::swap(&mut rest, &mut self.pending);
        assert(rest@ =~= old(self).pending().take(n as int));
        assert(self.pending@ =~= old(self).pending().skip(n as int));
        rest
    }
}

/// Whatever the sizes of reads, all that came is handed out, in order: taking `a` and later
/// `b` samples, with more coming in between, is to take from one stream.
pub proof fn law_no_sample_is_lost(pending: Seq<Sample>, more: Seq<Sample>, a: int, b: int)
    requires
        0 <= a <= pending.len(),
        0 <= b <= pending.len() - a + more.len(),
    ensures
        pending.take(a) + (pending.skip(a) + more).take(b) == (pending + more).take(a + b),
        (pending.skip(a) + more).skip(b) == (pending + more).skip(a + b),
{
    assert(pending.take(a) + (pending.skip(a) + more).take(b) =~= (pending + more).take(a + b));
    assert((pending.skip(a) + more).skip(b) =~= (pending + more).skip(a + b));
}

/// A rate is taken for even if it misses the one that is wanted by no more than a millionth,
/// above it or below.
pub proof fn law_even_means_within_a_millionth(negative: bool, mantissa: u64, exponent: i32)
    ensures
        ({
            let rest = Dyadic::Finite { negative, mantissa, exponent };
            over_a_millionth(rest) <==> 1_000_000 * rest.num() > rest.den()
        }),
        over_a_millionth(Dyadic::Finite { negative: true, mantissa, exponent })
            == over_a_millionth(Dyadic::Finite { negative: false, mantissa, exponent }),
        over_a_millionth(Dyadic::Infinite { negative }),
        !over_a_millionth(Dyadic::NotANumber),
{
}

} // verus!
