use rand::distr::Bernoulli;
use rand::{Rng, SeedableRng};
use rand_chacha::ChaCha8Rng;
use vstd::prelude::*;

verus! {

/// The seeded ChaCha8 generator of `rand_chacha`.
#[verifier::external_type_specification]
#[verifier::external_body]
pub struct ExChaCha8Rng(ChaCha8Rng);

/// `rand`'s Bernoulli distribution (the packet-loss probability).
#[verifier::external_type_specification]
#[verifier::external_body]
pub struct ExBernoulli(Bernoulli);

/// One draw taken from the network generator.
pub enum Draw {
    /// A latency from `lo..=hi`.
    Latency(u64, u64),
    /// A loss outcome from the distribution.
    Loss(Bernoulli),
}

/// The distribution that `Bernoulli::from_ratio(numerator, denominator)` builds.
pub uninterp spec fn ratio_loss(numerator: u32, denominator: u32) -> Bernoulli;

/// The latency that a ChaCha8 generator seeded with `seed` draws from `lo..=hi` after
/// the draws `calls`.
pub uninterp spec fn latency_draw(seed: u64, calls: Seq<Draw>, lo: u64, hi: u64) -> u64;

/// The loss outcome that a ChaCha8 generator seeded with `seed` draws from `loss` after
/// the draws `calls`.
pub uninterp spec fn loss_draw(seed: u64, calls: Seq<Draw>, loss: Bernoulli) -> bool;

/// A loss distribution built from a zero ratio.
pub open spec fn never_drops(loss: Bernoulli) -> bool {
    exists|d: u32| 0 < d && loss == #[trigger] ratio_loss(0, d)
}

/// Calls `Bernoulli::from_ratio`. Trusted: it succeeds exactly when
/// `numerator <= denominator` and `denominator > 0`, and then gives `ratio_loss` of the
/// ratio.
#[verifier::external_body]
pub(crate) fn loss_ratio(numerator: u32, denominator: u32) -> (r: Option<Bernoulli>)
    ensures
        r == (if numerator <= denominator && 0 < denominator { Some(ratio_loss(numerator, denominator)) } else { None }),
{
    match Bernoulli::from_ratio(numerator, denominator) {
        Ok(b) => Some(b),
        Err(_) => None,
    }
}

/// A seeded generator, with its seed and the draws taken from it so far: together they
/// fix its state, since a seeded generator gives the same output on every run.
pub struct NetworkDraws {
    rng: ChaCha8Rng,
    seed: Ghost<u64>,
    calls: Ghost<Seq<Draw>>,
}

impl NetworkDraws {
    /// The seed of the generator.
    pub closed spec fn seed(&self) -> u64 {
        self.seed@
    }

    /// The draws taken so far, in order.
    pub closed spec fn calls(&self) -> Seq<Draw> {
        self.calls@
    }

    /// Calls `ChaCha8Rng::seed_from_u64`. Trusted: the generator starts from `seed` with
    /// no draws taken.
    #[verifier::external_body]
    pub(crate) fn seeded(seed: u64) -> (r: Self)
        ensures
            r.seed() == seed,
            r.calls() == Seq::<Draw>::empty(),
    {
        NetworkDraws { rng: ChaCha8Rng::seed_from_u64(seed), seed: Ghost(seed), calls: Ghost(Seq::empty()) }
    }

    /// Calls `Rng::random_range` on `lo..=hi`. Trusted: the sample lies in `[lo, hi]`
    /// (the range is nonempty, so the call does not panic) and is `latency_draw` of the
    /// seed and the earlier draws; the draw is recorded.
    #[verifier::external_body]
    pub(crate) fn latency(&mut self, lo: u64, hi: u64) -> (r: u64)
        requires
            lo <= hi,
        ensures
            lo <= r <= hi,
            r == latency_draw(old(self).seed(), old(self).calls(), lo, hi),
            final(self).seed() == old(self).seed(),
            final(self).calls() == old(self).calls().push(Draw::Latency(lo, hi)),
    {
        self.rng.random_range(lo..=hi)
    }

    /// Calls `Rng::sample` with `loss` (what `random_bool` does). Trusted: the outcome is
    /// `loss_draw` of the seed and the earlier draws, and a distribution built from a zero
    /// ratio never gives `true`; the draw is recorded.
    #[verifier::external_body]
    pub(crate) fn loss(&mut self, loss: &Bernoulli) -> (r: bool)
        ensures
            r == loss_draw(old(self).seed(), old(self).calls(), *loss),
            forall|d: u32| 0 < d && *loss == #[trigger] ratio_loss(0, d) ==> !r,
            final(self).seed() == old(self).seed(),
            final(self).calls() == old(self).calls().push(Draw::Loss(*loss)),
    {
        self.rng.sample(*loss)
    }
}

} // verus!
