//! The iterator that walks the levels of a bottom-up merge sort over an array
//! whose length need not be a power of two: at each level it splits the array
//! into a power-of-two number of ranges whose lengths differ by at most one.
use vstd::prelude::*;
use vstd::arithmetic::power2::{pow2, lemma2_to64, lemma_pow2_pos, lemma_pow2_adds, lemma_pow2_subtracts, lemma_pow2_strictly_increases};
use vstd::bits::lemma_usize_shl_is_mul;
use core::ops::Range;
use crate::ops::nat_of;

verus! {

/// `usize::isqrt`. Trusted: the result is the greatest `r` with `r * r <= x`.
#[verifier::external_body]
pub(crate) fn integer_sqrt(x: usize) -> (r: usize)
    ensures
        r * r <= x,
        x < (r + 1) * (r + 1),
{
    x.isqrt()
}

/// `usize::ilog2`. Trusted: for a positive `x` the result `e` is the exponent
/// of the greatest power of two not above `x`.
#[verifier::external_body]
pub(crate) fn floor_log2(x: usize) -> (e: u32)
    requires
        x > 0,
    ensures
        e < usize::BITS,
        pow2(e as nat) <= x < pow2(e as nat + 1),
{
    x.ilog2()
}

/// The iterator's position at a level: `decimal` and `numerator` hold
/// `consumed` times the step `size / denominator` as a mixed fraction.
pub(crate) struct WikiIterator {
    size: usize,
    numerator: usize,
    decimal: usize,
    denominator: usize,
    decimal_step: usize,
    numerator_step: usize,
    consumed: Ghost<nat>,
    ranges: Ghost<nat>,
    level: Ghost<nat>,
}

impl WikiIterator {
    /// The step between ranges, scaled by the denominator.
    pub closed spec fn step(&self) -> int {
        self.decimal_step * self.denominator + self.numerator_step
    }

    /// The number of ranges at the current level.
    pub closed spec fn ranges(&self) -> nat {
        self.ranges@
    }

    /// The number of ranges handed out since the last `begin`.
    pub closed spec fn consumed(&self) -> nat {
        self.consumed@
    }

    pub closed spec fn size_spec(&self) -> nat {
        self.size as nat
    }

    pub closed spec fn decimal_step_spec(&self) -> nat {
        self.decimal_step as nat
    }

    pub closed spec fn decimal_spec(&self) -> nat {
        self.decimal as nat
    }

    pub closed spec fn numerator_spec(&self) -> nat {
        self.numerator as nat
    }

    pub closed spec fn denominator_spec(&self) -> nat {
        self.denominator as nat
    }

    pub closed spec fn numerator_step_spec(&self) -> nat {
        self.numerator_step as nat
    }

    /// The level is consistent: `ranges` ranges of `step / denominator` items
    /// each make up the array.
    pub closed spec fn wf(&self) -> bool {
        &&& self.size > 0
        &&& 0 < self.denominator <= self.size
        &&& self.denominator * 2 <= usize::MAX
        &&& self.decimal_step >= 1
        &&& self.numerator_step < self.denominator
        &&& self.ranges@ * self.step() == self.size * self.denominator
        &&& self.ranges@ == pow2(self.level@)
    }

    /// The iterator stands after `consumed` ranges of the level.
    pub closed spec fn positioned(&self) -> bool {
        &&& self.wf()
        &&& self.numerator < self.denominator
        &&& self.decimal * self.denominator + self.numerator == self.consumed@ * self.step()
        &&& self.consumed@ <= self.ranges@
    }

    /// A positioned iterator is at a consistent level and has not run past
    /// its last range.
    pub proof fn lemma_positioned(&self)
        requires
            self.positioned(),
        ensures
            self.wf(),
            self.consumed() <= self.ranges(),
    {
    }

    /// Once every range of the level is handed out, the position is the end
    /// of the array.
    pub proof fn lemma_last_range(&self)
        requires
            self.positioned(),
            self.consumed() == self.ranges(),
        ensures
            self.decimal_spec() == self.size_spec(),
    {
        self.lemma_position();
    }

    /// Where the iterator stands: after `consumed` ranges of a level of
    /// `ranges` ranges over `size` items, at `consumed * size / ranges`
    /// rounded down. So range `k` of a level runs from `k * size / ranges`
    /// to `(k + 1) * size / ranges`.
    pub proof fn lemma_position_formula(&self)
        requires
            self.positioned(),
        ensures
            self.decimal_spec() == (self.consumed() * self.size_spec()) / self.ranges(),
    {
        self.lemma_step_pos();
        let r = self.ranges@ as int;
        let k = self.consumed@ as int;
        let s = self.step();
        let d = self.denominator as int;
        let n = self.size as int;
        let dec = self.decimal as int;
        let num = self.numerator as int;
        assert(r >= 1) by {
            vstd::arithmetic::power2::lemma_pow2_pos(self.level@);
        }
        assert(dec * r * d + num * r == k * n * d) by (nonlinear_arith)
            requires dec * d + num == k * s, r * s == n * d;
        assert(dec * r <= k * n && k * n < dec * r + r) by (nonlinear_arith)
            requires dec * r * d + num * r == k * n * d, 0 <= num < d, d > 0, r >= 1;
        vstd::arithmetic::div_mod::lemma_fundamental_div_mod(k * n, r);
        vstd::arithmetic::div_mod::lemma_mod_bound(k * n, r);
        assert((k * n) / r == dec) by (nonlinear_arith)
            requires k * n == r * ((k * n) / r) + (k * n) % r, 0 <= (k * n) % r < r,
                dec * r <= k * n, k * n < dec * r + r, r >= 1;
    }

    /// The shorter ranges of a level, as many as there are ranges, fit in the
    /// array, and hold at least one item.
    pub proof fn lemma_level_bounds(&self)
        requires
            self.wf(),
        ensures
            self.decimal_step_spec() * self.ranges() <= self.size_spec(),
            self.decimal_step_spec() >= 1,
    {
        self.lemma_step_pos();
    }

    /// A level of at least two ranges has an even number of them.
    pub proof fn lemma_ranges_even(&self)
        requires
            self.wf(),
            self.ranges() >= 2,
        ensures
            self.ranges() % 2 == 0,
    {
        let e = self.level@;
        if e == 0 {
            lemma2_to64();
        } else {
            lemma_pow2_adds((e - 1) as nat, 1);
            lemma2_to64();
        }
    }

    proof fn lemma_step_pos(&self)
        requires
            self.wf(),
        ensures
            self.step() > 0,
            self.decimal_step * self.ranges@ <= self.size,
    {
        lemma_pow2_pos(self.level@);
        let r = self.ranges@ as int;
        let s = self.step();
        let d = self.denominator as int;
        let n = self.size as int;
        assert(s > 0) by (nonlinear_arith)
            requires r * s == n * d, n > 0, d > 0, r > 0;
        let ds = self.decimal_step as int;
        assert(ds * r <= n) by (nonlinear_arith)
            requires r * s == n * d, s == ds * d + self.numerator_step, d > 0, r > 0, self.numerator_step >= 0, ds >= 0;
    }

    proof fn lemma_position(&self)
        requires
            self.positioned(),
        ensures
            self.consumed@ < self.ranges@ ==> self.decimal < self.size,
            self.consumed@ < self.ranges@ ==> self.decimal * self.denominator + self.numerator + self.step() <= self.size * self.denominator,
            self.consumed@ == self.ranges@ ==> self.decimal >= self.size,
            self.decimal <= self.size,
    {
        self.lemma_step_pos();
        let r = self.ranges@ as int;
        let k = self.consumed@ as int;
        let s = self.step();
        let d = self.denominator as int;
        let n = self.size as int;
        let dec = self.decimal as int;
        let num = self.numerator as int;
        assert(k * s <= r * s) by (nonlinear_arith)
            requires k <= r, s > 0;
        if k < r {
            assert(k * s + s <= r * s) by (nonlinear_arith)
                requires k < r, s > 0;
            assert(dec < n) by (nonlinear_arith)
                requires dec * d + num == k * s, k * s + s <= n * d, s > 0, num >= 0, d > 0;
        } else {
            assert(dec >= n) by (nonlinear_arith)
                requires dec * d + num == n * d, num < d, d > 0;
        }
        assert(dec <= n) by (nonlinear_arith)
            requires dec * d + num <= n * d, num >= 0, d > 0;
    }

    /// Restarts the level from its first range.
    pub(crate) fn begin(&mut self)
        requires
            old(self).wf(),
        ensures
            final(self).positioned(),
            final(self).consumed() == 0,
            final(self).decimal_spec() == 0,
            final(self).ranges() == old(self).ranges(),
            final(self).size_spec() == old(self).size_spec(),
            final(self).decimal_step_spec() == old(self).decimal_step_spec(),
    {
        self.numerator = 0;
        self.decimal = 0;
        self.consumed = Ghost(0);
    }

    /// Hands out the next range of the level.
    pub(crate) fn next_range(&mut self) -> (range: Range<usize>)
        requires
            old(self).positioned(),
            old(self).consumed() < old(self).ranges(),
        ensures
            final(self).positioned(),
            final(self).consumed() == old(self).consumed() + 1,
            final(self).ranges() == old(self).ranges(),
            final(self).size_spec() == old(self).size_spec(),
            final(self).decimal_step_spec() == old(self).decimal_step_spec(),
            range.start == old(self).decimal_spec(),
            range.end == final(self).decimal_spec(),
            range.start < range.end <= old(self).size_spec(),
            range.end - range.start == old(self).decimal_step_spec()
                || range.end - range.start == old(self).decimal_step_spec() + 1,
    {
        proof {
            self.lemma_position();
            self.lemma_step_pos();
        }
        let ghost old_self = *self;
        let start = self.decimal;
        let ghost d = self.denominator as int;
        proof {
            let ds = self.decimal_step as int;
            let dec = self.decimal as int;
            let num = self.numerator as int;
            let ns = self.numerator_step as int;
            assert((dec + ds) * d <= dec * d + num + self.step()) by (nonlinear_arith)
                requires self.step() == ds * d + ns, num >= 0, ns >= 0;
            assert(dec + ds <= self.size) by (nonlinear_arith)
                requires (dec + ds) * d <= self.size * d, d > 0;
        }
        self.decimal += self.decimal_step;
        self.numerator += self.numerator_step;
        if self.numerator >= self.denominator {
            self.numerator -= self.denominator;
            proof {
                let dec = old_self.decimal as int;
                let ds = old_self.decimal_step as int;
                let num = old_self.numerator as int;
                let ns = old_self.numerator_step as int;
                assert((dec + ds + 1) * d + (num + ns - d) == dec * d + num + (ds * d + ns)) by (nonlinear_arith);
                assert(dec + ds + 1 <= self.size) by (nonlinear_arith)
                    requires (dec + ds + 1) * d + (num + ns - d) <= self.size * d, num + ns - d >= 0, d > 0;
            }
            self.decimal += 1;
        } else {
            proof {
                let dec = old_self.decimal as int;
                let ds = old_self.decimal_step as int;
                let num = old_self.numerator as int;
                let ns = old_self.numerator_step as int;
                assert((dec + ds) * d + (num + ns) == dec * d + num + (ds * d + ns)) by (nonlinear_arith);
            }
        }
        self.consumed = Ghost((self.consumed@ + 1) as nat);
        proof {
            let k = old_self.consumed@ as int;
            assert(k * self.step() + self.step() == (k + 1) * self.step()) by (nonlinear_arith);
            assert(self.step() == old_self.step());
        }
        start..self.decimal
    }

    /// Every range of the level has been handed out.
    pub(crate) fn finished(&self) -> (done: bool)
        requires
            self.positioned(),
        ensures
            done == (self.consumed() == self.ranges()),
    {
        proof {
            self.lemma_position();
        }
        self.decimal >= self.size
    }

    /// Moves to the next level, whose ranges are twice as long; tells whether
    /// that level still has more than one range.
    pub(crate) fn next_level(&mut self) -> (more: bool)
        requires
            old(self).wf(),
            old(self).ranges() >= 2,
        ensures
            final(self).wf(),
            final(self).ranges() * 2 == old(self).ranges(),
            final(self).size_spec() == old(self).size_spec(),
            final(self).denominator_spec() == old(self).denominator_spec(),
            final(self).numerator_spec() == old(self).numerator_spec(),
            final(self).decimal_spec() == old(self).decimal_spec(),
            final(self).numerator_step_spec() < final(self).denominator_spec(),
            final(self).decimal_step_spec() * final(self).denominator_spec() + final(self).numerator_step_spec()
                == 2 * (old(self).decimal_step_spec() * old(self).denominator_spec() + old(self).numerator_step_spec()),
            final(self).decimal_step_spec() >= 2 * old(self).decimal_step_spec(),
            more == (final(self).decimal_step_spec() < final(self).size_spec()),
            more ==> final(self).ranges() >= 2,
    {
        proof {
            self.lemma_step_pos();
            let ds = self.decimal_step as int;
            let r = self.ranges@ as int;
            assert(2 * ds <= ds * r) by (nonlinear_arith)
                requires r >= 2, ds >= 0;
        }
        let ghost old_self = *self;
        let ghost d = self.denominator as int;
        let ghost e = self.level@;
        proof {
            if e == 0 {
                lemma2_to64();
            }
            lemma_pow2_adds((e - 1) as nat, 1);
            lemma2_to64();
        }
        self.decimal_step += self.decimal_step;
        self.numerator_step += self.numerator_step;
        if self.numerator_step >= self.denominator {
            self.numerator_step -= self.denominator;
            self.decimal_step += 1;
            proof {
                let ds = old_self.decimal_step as int;
                let ns = old_self.numerator_step as int;
                assert((2 * ds + 1) * d + (2 * ns - d) == 2 * (ds * d + ns)) by (nonlinear_arith);
            }
        } else {
            proof {
                let ds = old_self.decimal_step as int;
                let ns = old_self.numerator_step as int;
                assert((2 * ds) * d + (2 * ns) == 2 * (ds * d + ns)) by (nonlinear_arith);
            }
        }
        self.level = Ghost((e - 1) as nat);
        self.ranges = Ghost(pow2((e - 1) as nat));
        proof {
            let r = old_self.ranges@ as int;
            let s = old_self.step();
            assert(self.step() == 2 * s);
            assert(self.ranges@ * 2 == r);
            assert(self.ranges@ * self.step() == r * s) by (nonlinear_arith)
                requires self.ranges@ * 2 == r, self.step() == 2 * s;
            self.lemma_step_pos();
            if self.ranges@ < 2 {
                lemma_pow2_pos(self.level@);
                assert(self.ranges@ == 1);
                assert(self.decimal_step >= self.size) by (nonlinear_arith)
                    requires self.step() == self.size * d, self.step() == self.decimal_step * d + self.numerator_step,
                        self.numerator_step < d, d > 0;
            }
        }
        self.decimal_step < self.size
    }

    /// The length of the shorter ranges of the level.
    pub(crate) fn len(&self) -> (n: usize)
        ensures
            n == self.decimal_step_spec(),
    {
        self.decimal_step
    }

    /// The iterator over `size` items whose first level has ranges of at
    /// least `min_level` items, a power of two.
    pub(crate) fn new(size: usize, min_level: usize) -> (it: Self)
        requires
            size > 0,
            min_level >= 1,
            exists|q: nat| pow2(q) == min_level && min_level <= size,
        ensures
            min_level >= 2 || size * 2 <= usize::MAX ==> it.wf(),
            it.size_spec() == size,
            it.numerator_spec() == 0,
            it.decimal_spec() == 0,
            exists|p: nat| pow2(p) == it.denominator_spec() * min_level,
            it.denominator_spec() * min_level <= size < it.denominator_spec() * min_level * 2,
            it.decimal_step_spec() == nat_of(size) / it.denominator_spec(),
            it.numerator_step_spec() == nat_of(size) % it.denominator_spec(),
            it.decimal_step_spec() >= min_level,
            it.ranges() * min_level <= size < it.ranges() * min_level * 2,
    {
        let log = floor_log2(size);
        let ghost p = log as nat;
        let ghost q = choose|q: nat| pow2(q) == min_level && min_level <= size;
        proof {
            lemma_pow2_pos(p);
            lemma_pow2_pos(q);
            if q > p {
                lemma_pow2_strictly_increases(p, q);
                lemma_pow2_adds(p, 1);
                lemma2_to64();
                if q > p + 1 {
                    lemma_pow2_strictly_increases(p + 1, q);
                }
            }
            lemma_pow2_subtracts(q, p);
            lemma_pow2_adds((p - q) as nat, q);
            lemma_pow2_adds(p, 1);
            lemma2_to64();
            lemma_usize_shl_is_mul(1, log as usize);
        }
        let power_of_two: usize = 1 << (log as usize);
        let denominator = power_of_two / min_level;
        let numerator_step = size % denominator;
        let decimal_step = size / denominator;
        let it = Self {
            size,
            numerator: 0,
            decimal: 0,
            denominator,
            decimal_step,
            numerator_step,
            consumed: Ghost(0),
            ranges: Ghost(pow2((p - q) as nat)),
            level: Ghost((p - q) as nat),
        };
        proof {
            assert(denominator == pow2((p - q) as nat));
            assert(denominator <= power_of_two) by (nonlinear_arith)
                requires denominator == power_of_two / min_level, min_level >= 1;
            if min_level >= 2 {
                assert(denominator * 2 <= power_of_two) by (nonlinear_arith)
                    requires denominator == power_of_two / min_level, min_level >= 2;
            }
            assert(decimal_step >= 1) by (nonlinear_arith)
                requires decimal_step == size / denominator, denominator <= size, denominator > 0;
            assert(denominator * min_level == power_of_two) by (nonlinear_arith)
                requires denominator == pow2((p - q) as nat), min_level == pow2(q), power_of_two == pow2(p),
                    pow2((p - q) as nat) * pow2(q) == pow2(p);
            assert(size < denominator * min_level * 2) by (nonlinear_arith)
                requires denominator * min_level == power_of_two, size < pow2(p + 1), pow2(p + 1) == power_of_two * 2;
            assert(decimal_step >= min_level) by (nonlinear_arith)
                requires decimal_step == size / denominator, denominator * min_level <= size, denominator > 0;
            assert(it.step() == size) by (nonlinear_arith)
                requires it.step() == decimal_step * denominator + numerator_step,
                    decimal_step == size / denominator, numerator_step == size % denominator, denominator > 0;
            assert(it.ranges@ * it.step() == size * denominator) by (nonlinear_arith)
                requires it.ranges@ == denominator, it.step() == size;
            assert(numerator_step < denominator);
            if min_level >= 2 || size * 2 <= usize::MAX {
                assert(denominator * 2 <= usize::MAX);
            }
            assert(it.ranges@ == pow2(it.level@));
        }
        it
    }
}

} // verus!
