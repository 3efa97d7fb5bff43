use vstd::prelude::*;

verus! {

/// Declares rand's standard generator type so that a value of it can stand in
/// a field; Verus sees nothing inside it.
#[verifier::external_type_specification]
#[verifier::external_body]
pub struct ExStdRng(rand::rngs::StdRng);

/// The value that rand's `gen_range(lo..hi)` returns on the generator that
/// `seed_from_u64(seed_value)` produced, after that generator has already
/// served the draws recorded in `log` (their `(lo, hi)` bounds, in call
/// order). `StdRng` in the pinned version of rand is a fixed,
/// platform-independent algorithm, and `gen_range` samples from it
/// deterministically, so this value depends on these arguments alone.
pub uninterp spec fn draw_value(seed_value: u64, log: Seq<(u32, u32)>, lo: u32, hi: u32) -> u32;

/// A reproducible source of bounded draws: a seeded generator together with a
/// ghost record of the seed and of every draw served so far. The generator is
/// touched only by `from_seed` and `draw`, so its state is always the one
/// that `seed` and `log` describe.
pub struct DigitSource {
    rng: rand::rngs::StdRng,
    seed: Ghost<u64>,
    log: Ghost<Seq<(u32, u32)>>,
}

/// Relies on `rand::SeedableRng::seed_from_u64`: it builds the generator
/// state from the seed alone and never fails.
#[verifier::external_body]
fn rng_from_seed(seed_value: u64) -> rand::rngs::StdRng {
    rand::SeedableRng::seed_from_u64(seed_value)
}

impl DigitSource {
    /// The seed this source was built from.
    pub closed spec fn seed_of(&self) -> u64 {
        self.seed@
    }

    /// Every draw served so far, as `(lo, hi)` bounds in call order.
    pub closed spec fn log_of(&self) -> Seq<(u32, u32)> {
        self.log@
    }

    pub(crate) fn from_seed(seed_value: u64) -> (r: DigitSource)
        ensures
            r.seed_of() == seed_value,
            r.log_of() == Seq::<(u32, u32)>::empty(),
    {
        DigitSource {
            rng: rng_from_seed(seed_value),
            seed: Ghost(seed_value),
            log: Ghost(Seq::empty()),
        }
    }

    /// Relies on `rand::Rng::gen_range`: on a nonempty range `lo..hi` it
    /// returns a uniformly drawn value in `[lo, hi)` (it panics on an empty
    /// range, which the precondition rules out), and it advances `StdRng`
    /// deterministically, so the value returned is `draw_value` of the seed
    /// and of the draws served before this one.
    #[verifier::external_body]
    pub(crate) fn draw(&mut self, lo: u32, hi: u32) -> (r: u32)
        requires
            lo < hi,
        ensures
            lo <= r < hi,
            r == draw_value(old(self).seed_of(), old(self).log_of(), lo, hi),
            final(self).seed_of() == old(self).seed_of(),
            final(self).log_of() == old(self).log_of().push((lo, hi)),
    {
        rand::Rng::gen_range(&mut self.rng, lo..hi)
    }
}

/// The canonical digit byte for `n`: `'0'`-`'9'` for values below ten, then
/// `'a'`-`'z'` up to base 36. Values from 36 up fall back to `'0'`, so no
/// value at all maps to a separator byte (`'.'` or `':'`).
pub open spec fn digit_char(n: u32) -> u8 {
    if n < 10 {
        (48 + n) as u8
    } else if n < 36 {
        (87 + n) as u8
    } else {
        48u8
    }
}

/// Renders a bounded draw as its digit byte.
pub fn digit_byte(n: u32) -> (r: u8)
    ensures
        r == digit_char(n),
{
    if n < 10 {
        (48 + n) as u8
    } else if n < 36 {
        (87 + n) as u8
    } else {
        48u8
    }
}

/// A digit byte is never a dot and never a colon, whatever was drawn.
pub proof fn lemma_digit_char_no_separator(n: u32)
    ensures
        digit_char(n) != 46,
        digit_char(n) != 58,
{
}

/// A draw held below its bound. The generation rules pass every draw
/// through this, so that the digit they pick is bounded by the base even
/// though the name `draw_value` is unbounded; on a real draw, which the
/// generator returns below the bound, it changes nothing.
pub open spec fn capped(d: u32, hi: u32) -> u32 {
    if d < hi {
        d
    } else {
        0
    }
}

} // verus!
