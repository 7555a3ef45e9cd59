//! Cascaded integrator-comb filter.

use crate::sdr::Real;
use vstd::arithmetic::div_mod::{
    lemma_fundamental_div_mod, lemma_fundamental_div_mod_converse, lemma_mod_bound,
};
use vstd::arithmetic::power::{lemma0_pow, lemma1_pow, lemma_pow0, lemma_pow_increases, pow};
use vstd::arithmetic::power2::{
    lemma2_to64, lemma_pow2_pos, lemma_pow2_strictly_increases, lemma_pow2_unfold, pow2,
};
use vstd::prelude::*;
use vstd::wrapping::i16_specs;
use vstd::wrapping::i32_specs::signed_crop;

verus! {

/// The largest gain, in bits, that leaves room for 12 bit samples in the 32
/// bit registers.
pub const MAX_GAIN_BITS: usize = 20;

/// The least `s` with `v <= 2^s`: the base 2 logarithm of `v`, rounded up.
pub open spec fn ceil_log2(v: nat) -> nat
    decreases v,
{
    if v <= 1 {
        0
    } else {
        1 + ceil_log2((v + 1) / 2)
    }
}

/// The gain of a filter of order `q` and ratio `r`, which is `r^q`, as a
/// number of bits: `q * log2(r)`, rounded up.
pub open spec fn gain_bits(q: nat, r: nat) -> nat {
    ceil_log2(pow(r as int, q) as nat)
}

/// The sum of the first `n` entries of `s`.
pub open spec fn prefix_sum(s: Seq<i32>, n: int) -> int
    decreases n,
{
    if n <= 0 {
        0
    } else {
        prefix_sum(s, n - 1) + s[n - 1]
    }
}

/// The integrators after one more sample has gone in. The first adds the
/// sample to itself, every other adds what the one before it has become:
/// integrator `l` grows by the sample and all integrators up to itself,
/// within 32 bits.
pub open spec fn integrated(intg: Seq<i32>, sample: i16) -> Seq<i32> {
    Seq::new(intg.len(), |l: int| signed_crop(sample + prefix_sum(intg, l + 1)))
}

/// The integrators after a run of samples has gone in.
pub open spec fn integrated_all(intg: Seq<i32>, samples: Seq<i16>) -> Seq<i32>
    decreases samples.len(),
{
    if samples.len() == 0 {
        intg
    } else {
        integrated(integrated_all(intg, samples.drop_last()), samples.last())
    }
}

/// The comb registers after the decimator has handed over `top`: each is
/// `top` minus all the combs before itself as they were, within 32 bits.
pub open spec fn combed(comb: Seq<i32>, top: i32) -> Seq<i32> {
    Seq::new(comb.len(), |l: int| signed_crop(top - prefix_sum(comb, l)))
}

/// The comb registers after `k` output samples, for a filter of ratio `r`
/// that started with the registers `intg` and `comb` and was fed `x`.
pub open spec fn combs_after(intg: Seq<i32>, comb: Seq<i32>, x: Seq<i16>, r: int, k: int) -> Seq<
    i32,
>
    decreases k,
{
    if k <= 0 {
        comb
    } else {
        combed(
            combs_after(intg, comb, x, r, k - 1),
            integrated_all(intg, x.take(k * r)).last(),
        )
    }
}

/// The output sample for the last comb register `c`: divided by `2^shift`,
/// rounded down, and cut to 16 bits.
pub open spec fn scaled(c: i32, shift: nat) -> i16 {
    i16_specs::signed_crop(c as int / pow2(shift) as int)
}

/// The output of a filter of ratio `r` that starts with the registers `intg`
/// and `comb` and is fed `x`: one sample for every `r` that go in, taken
/// from the last comb register.
pub open spec fn outputs(intg: Seq<i32>, comb: Seq<i32>, x: Seq<i16>, r: int, shift: nat) -> Seq<
    i16,
> {
    Seq::new(
        (x.len() as int / r) as nat,
        |k: int| scaled(combs_after(intg, comb, x, r, k + 1).last(), shift),
    )
}

/// Qth order CIC filter with decimate-by-R (and D=R).
pub struct CIC {
    q: usize,
    r: usize,
    intg: Vec<i32>,
    comb: Vec<i32>,
    gain_shift: usize,
}

impl CIC {
    /// The order of the filter.
    pub closed spec fn order(&self) -> usize {
        self.q
    }

    /// The downsampling ratio.
    pub closed spec fn ratio(&self) -> usize {
        self.r
    }

    /// The integrator registers.
    pub closed spec fn integrators(&self) -> Seq<i32> {
        self.intg@
    }

    /// The comb registers; the last holds the output.
    pub closed spec fn combs(&self) -> Seq<i32> {
        self.comb@
    }

    /// The number of bits by which the output is shifted down.
    pub closed spec fn gain_shift(&self) -> usize {
        self.gain_shift
    }

    /// There is one integrator per order and one comb more, and the shift
    /// is the gain of the filter.
    pub open spec fn wf(&self) -> bool {
        &&& self.integrators().len() == self.order()
        &&& self.combs().len() == self.order() + 1
        &&& self.gain_shift() == gain_bits(self.order() as nat, self.ratio() as nat)
        &&& self.gain_shift() <= MAX_GAIN_BITS
    }

    /// Create a new CIC filter of order q and downsampling ratio r.
    ///
    /// Note that 12 + ceil(Q log2 R) must <= 32, that is R^Q <= 2^20, and
    /// that Q and R must not both be 0.
    pub fn new(q: usize, r: usize) -> (cic: CIC)
        requires
            q > 0 || r > 0,
            q < usize::MAX,
            pow(r as int, q as nat) <= pow2(MAX_GAIN_BITS as nat),
        ensures
            cic.wf(),
            cic.order() == q,
            cic.ratio() == r,
            cic.integrators() == Seq::new(q as nat, |l: int| 0i32),
            cic.combs() == Seq::new(q as nat + 1, |l: int| 0i32),
            cic.gain_shift() == gain_bits(q as nat, r as nat),
    {
        // Allocate the integrator and comb registers.
        let mut intg: Vec<i32> = Vec::with_capacity(q);
        let mut comb: Vec<i32> = Vec::with_capacity(q + 1);

        for k in 0usize..q
            invariant
                intg@ == Seq::new(k as nat, |l: int| 0i32),
                comb@ == Seq::new(k as nat, |l: int| 0i32),
        {
            intg.push(0i32);
            comb.push(0i32);
        }

        // One final comb register for holding the output.
        comb.push(0i32);

        // Compute the filter gain, R**Q, as an equivalent bit shift
        let gain_shift: usize = Self::gain(q, r);

        CIC { q: q, r: r, intg: intg, comb: comb, gain_shift: gain_shift }
    }

    /// Run the CIC filter over a block x,
    /// returning the filtered and decimated output.
    ///
    /// The filter must have an order and a ratio above 0, and to decimate by
    /// R the block must hold a multiple of R samples.
    pub fn process(&mut self, x: &Vec<Real<i16>>) -> (y: Vec<Real<i16>>)
        requires
            old(self).wf(),
            old(self).order() > 0,
            old(self).ratio() > 0,
            x@.len() % (old(self).ratio() as nat) == 0,
        ensures
            final(self).wf(),
            final(self).order() == old(self).order(),
            final(self).ratio() == old(self).ratio(),
            final(self).gain_shift() == old(self).gain_shift(),
            y@ == outputs(
                old(self).integrators(),
                old(self).combs(),
                x@,
                old(self).ratio() as int,
                old(self).gain_shift() as nat,
            ),
            final(self).integrators() == integrated_all(old(self).integrators(), x@),
            final(self).combs() == combs_after(
                old(self).integrators(),
                old(self).combs(),
                x@,
                old(self).ratio() as int,
                y@.len() as int,
            ),
    {
        let ghost intg0 = self.intg@;
        let ghost comb0 = self.comb@;
        let q: usize = self.q;
        let r: usize = self.r;

        // Output will have 1/R the number of samples of the input.
        let n: usize = x.len() / r;
        let mut y: Vec<i16> = Vec::with_capacity(n);
        assert(n * r == x@.len()) by (nonlinear_arith)
            requires
                r > 0,
                n == x@.len() / (r as nat),
                x@.len() % (r as nat) == 0,
        ;
        assert(0 * r == 0) by (nonlinear_arith);
        assert(x@.take(0) =~= Seq::<i16>::empty());
        assert(self.comb.len() == q + 1);

        // Push samples through the chain.
        for k in 0usize..n
            invariant
                0 < q < usize::MAX,
                r > 0,
                n * r == x@.len(),
                x@.len() <= usize::MAX,
                self.q == q,
                self.r == r,
                self.gain_shift == old(self).gain_shift,
                self.gain_shift <= MAX_GAIN_BITS,
                self.intg@.len() == q,
                self.comb@.len() == q + 1,
                intg0.len() == q,
                comb0.len() == q + 1,
                self.intg@ == integrated_all(intg0, x@.take(k * r)),
                self.comb@ == combs_after(intg0, comb0, x@, r as int, k as int),
                y@.len() == k,
                forall|j: int|
                    0 <= j < k ==> (#[trigger] y@[j]) == scaled(
                        combs_after(intg0, comb0, x@, r as int, j + 1).last(),
                        self.gain_shift as nat,
                    ),
        {
            assert(k * r + r <= n * r) by (nonlinear_arith)
                requires
                    k < n,
                    r > 0,
            ;
            for o in 0usize..r
                invariant
                    q > 0,
                    k * r + r <= x@.len(),
                    x@.len() <= usize::MAX,
                    self.q == q,
                    self.r == r,
                    self.gain_shift == old(self).gain_shift,
                    self.intg@.len() == q,
                    self.comb@.len() == q + 1,
                    self.comb@ == combs_after(intg0, comb0, x@, r as int, k as int),
                    self.intg@ == integrated_all(intg0, x@.take(k * r + o)),
            {
                // Add up the integrators.
                let ghost before = self.intg@;
                let sample: i16 = x[k * r + o];
                self.intg[0] = self.intg[0].wrapping_add(sample as i32);
                proof {
                    reveal_with_fuel(prefix_sum, 2);
                }
                for l in 1usize..q
                    invariant
                        self.q == q,
                        self.r == r,
                        self.gain_shift == old(self).gain_shift,
                        self.intg@.len() == q,
                        before.len() == q,
                        self.comb@ == combs_after(intg0, comb0, x@, r as int, k as int),
                        forall|j: int|
                            0 <= j < l ==> (#[trigger] self.intg@[j]) == signed_crop(
                                sample + prefix_sum(before, j + 1),
                            ),
                        forall|j: int| l <= j < q ==> (#[trigger] self.intg@[j]) == before[j],
                {
                    self.intg[l] = self.intg[l].wrapping_add(self.intg[l - 1]);
                }
                proof {
                    assert(self.intg@ =~= integrated(before, sample));
                    let longer = x@.take(k * r + o + 1);
                    assert(longer.drop_last() =~= x@.take(k * r + o));
                    assert(longer.last() == sample);
                }
            }

            // Run the comb section at 1/R the sample rate
            // Each comb register is set to the output of the decimator,
            // minus all the combs before itself
            let ghost held = self.comb@;
            let top: i32 = self.intg[q - 1];
            for l in 0usize..(q + 1)
                invariant
                    0 < q < usize::MAX,
                    self.q == q,
                    self.r == r,
                    self.gain_shift == old(self).gain_shift,
                    self.intg@.len() == q,
                    self.comb@.len() == q + 1,
                    held.len() == q + 1,
                    top == self.intg@[q - 1],
                    self.intg@ == integrated_all(intg0, x@.take(k * r + r)),
                    forall|j: int|
                        q - l < j <= q ==> (#[trigger] self.comb@[j]) == signed_crop(
                            top - prefix_sum(held, j),
                        ),
                    forall|j: int| 0 <= j <= q - l ==> (#[trigger] self.comb@[j]) == held[j],
            {
                let l: usize = q - l;
                self.comb[l] = top;
                for m in 0usize..l
                    invariant
                        l <= q,
                        self.q == q,
                        self.r == r,
                        self.gain_shift == old(self).gain_shift,
                        self.intg@.len() == q,
                        self.comb@.len() == q + 1,
                        held.len() == q + 1,
                        top == self.intg@[q - 1],
                        self.intg@ == integrated_all(intg0, x@.take(k * r + r)),
                        self.comb@[l as int] == signed_crop(top - prefix_sum(held, m as int)),
                        forall|j: int|
                            l < j <= q ==> (#[trigger] self.comb@[j]) == signed_crop(
                                top - prefix_sum(held, j),
                            ),
                        forall|j: int| 0 <= j < l ==> (#[trigger] self.comb@[j]) == held[j],
                {
                    self.comb[l] = self.comb[l].wrapping_sub(self.comb[m]);
                }
            }
            proof {
                assert((k + 1) * r == k * r + r) by (nonlinear_arith);
                assert(self.comb@ =~= combed(held, top));
            }

            // The output is the final "output" comb register, scaled to
            // give unity filter gain.
            let output: i32 = self.comb[q] >> self.gain_shift;
            proof {
                lemma_shr_is_div(self.comb[q as int], self.gain_shift as u32);
                lemma_truncate_is_crop(output);
            }
            y.push(#[verifier::truncate] (output as i16));
        }
        proof {
            assert(x@.take(n * r) =~= x@);
            assert(y@ =~= outputs(intg0, comb0, x@, r as int, self.gain_shift as nat));
        }
        y
    }

    /// The gain `r^q` in bits, rounded up.
    fn gain(q: usize, r: usize) -> (shift: usize)
        requires
            pow(r as int, q as nat) <= pow2(MAX_GAIN_BITS as nat),
        ensures
            shift == gain_bits(q as nat, r as nat),
            shift <= MAX_GAIN_BITS,
    {
        proof {
            lemma2_to64();
        }
        if r < 2 {
            proof {
                lemma_small_power(r as nat, q as nat);
            }
            return 0;
        }
        let mut power: usize = 1;
        proof {
            lemma_pow0(r as int);
        }
        for k in 0usize..q
            invariant
                r >= 2,
                power == pow(r as int, k as nat),
                pow(r as int, q as nat) <= 0x100000,
        {
            proof {
                lemma_pow_increases(r as nat, (k + 1) as nat, q as nat);
                assert(pow(r as int, (k + 1) as nat) == r * pow(r as int, k as nat)) by {
                    reveal(pow);
                }
            }
            power = r * power;
        }
        let mut shift: usize = 0;
        let mut bound: usize = 1;
        while bound < power
            invariant
                power <= 0x100000,
                bound >= 1,
                bound == pow2(shift as nat),
                shift > 0 ==> pow2((shift - 1) as nat) < power,
                shift <= MAX_GAIN_BITS,
            decreases 0x200000 - bound,
        {
            proof {
                lemma2_to64();
                lemma_pow2_unfold((shift + 1) as nat);
                if shift > MAX_GAIN_BITS {
                    lemma_pow2_strictly_increases(MAX_GAIN_BITS as nat, shift as nat);
                }
            }
            bound = 2 * bound;
            shift = shift + 1;
        }
        proof {
            lemma_ceil_log2_is_least(power as nat, shift as nat);
        }
        shift
    }
}

/// Halving a quotient, rounded down, is dividing by twice as much.
proof fn lemma_halved_quotient(x: int, d: int)
    requires
        0 < d,
    ensures
        (x / d) / 2 == x / (2 * d),
{
    let q = x / d;
    let b = q % 2;
    let r = d * b + x % d;
    lemma_fundamental_div_mod(x, d);
    lemma_mod_bound(x, d);
    assert(d * b == (if b == 0 {
        0
    } else {
        d
    })) by (nonlinear_arith)
        requires
            b == 0 || b == 1,
    ;
    assert(x == (q / 2) * (2 * d) + r) by (nonlinear_arith)
        requires
            x == d * q + x % d,
            q == 2 * (q / 2) + b,
            r == d * b + x % d,
    ;
    lemma_fundamental_div_mod_converse(x, 2 * d, q / 2, r);
}

/// Shifting a register right by `s` bits divides it by `2^s`, rounding
/// down.
proof fn lemma_shr_is_div(c: i32, s: u32)
    requires
        s < 32,
    ensures
        (c >> s) as int == c as int / pow2(s as nat) as int,
    decreases s,
{
    if s == 0 {
        assert(c >> s == c) by (bit_vector)
            requires
                s == 0,
        ;
        lemma2_to64();
    } else {
        let t: u32 = (s - 1) as u32;
        lemma_shr_is_div(c, t);
        let d: i32 = c >> t;
        assert(c >> s == d >> 1u32) by (bit_vector)
            requires
                0 < s < 32,
                t == s - 1,
                d == c >> t,
        ;
        assert(d >> 1u32 == d / 2) by (bit_vector);
        lemma_pow2_unfold(s as nat);
        lemma_pow2_pos(t as nat);
        lemma_halved_quotient(c as int, pow2(t as nat) as int);
    }
}

/// Cutting a register to its low 16 bits gives the 16 bit value that
/// differs from it by a multiple of `2^16`.
proof fn lemma_truncate_is_crop(x: i32)
    ensures
        (x as i16) == i16_specs::signed_crop(x as int),
{
    assert((x as i16) as int == (if x % 0x10000 > 0x7fff {
        x % 0x10000 - 0x10000
    } else {
        (x % 0x10000) as int
    })) by (bit_vector);
}

/// A power of zero or of one needs no bits.
proof fn lemma_small_power(r: nat, q: nat)
    requires
        r < 2,
    ensures
        gain_bits(q, r) == 0,
{
    if q == 0 {
        lemma_pow0(r as int);
    } else if r == 0 {
        lemma0_pow(q);
    } else {
        lemma1_pow(q);
    }
}

/// `ceil_log2(v)` is the least `s` with `v <= 2^s`.
pub proof fn lemma_ceil_log2(v: nat)
    ensures
        v <= pow2(ceil_log2(v)),
        ceil_log2(v) > 0 ==> pow2((ceil_log2(v) - 1) as nat) < v,
    decreases v,
{
    lemma2_to64();
    if v > 1 {
        let half = (v + 1) / 2;
        lemma_ceil_log2(half);
        lemma_pow2_unfold(ceil_log2(v));
        if ceil_log2(half) > 0 {
            lemma_pow2_unfold(ceil_log2(half));
        }
    }
}

/// An `s` with `v <= 2^s` that is the least such is `ceil_log2(v)`.
pub proof fn lemma_ceil_log2_is_least(v: nat, s: nat)
    requires
        v <= pow2(s),
        s > 0 ==> pow2((s - 1) as nat) < v,
    ensures
        s == ceil_log2(v),
{
    lemma_ceil_log2(v);
    let c = ceil_log2(v);
    if s < c {
        if s < c - 1 {
            lemma_pow2_strictly_increases(s, (c - 1) as nat);
        }
    } else if c < s {
        if c < s - 1 {
            lemma_pow2_strictly_increases(c, (s - 1) as nat);
        }
    }
}

/// Feeding samples leaves the number of integrators as it is.
pub proof fn lemma_integrated_all_len(intg: Seq<i32>, samples: Seq<i16>)
    ensures
        integrated_all(intg, samples).len() == intg.len(),
    decreases samples.len(),
{
    if samples.len() > 0 {
        lemma_integrated_all_len(intg, samples.drop_last());
    }
}

/// Output samples leave the number of comb registers as it is.
pub proof fn lemma_combs_after_len(intg: Seq<i32>, comb: Seq<i32>, x: Seq<i16>, r: int, k: int)
    ensures
        combs_after(intg, comb, x, r, k).len() == comb.len(),
    decreases k,
{
    if k > 0 {
        lemma_combs_after_len(intg, comb, x, r, k - 1);
    }
}

/// Feeding two runs of samples one after the other is feeding them in one
/// run.
pub proof fn lemma_integrated_all_concat(intg: Seq<i32>, first: Seq<i16>, second: Seq<i16>)
    ensures
        integrated_all(intg, first + second) == integrated_all(
            integrated_all(intg, first),
            second,
        ),
    decreases second.len(),
{
    if second.len() == 0 {
        assert(first + second =~= first);
    } else {
        lemma_integrated_all_concat(intg, first, second.drop_last());
        assert((first + second).drop_last() =~= first + second.drop_last());
    }
}

/// The first `k` output samples depend on the first `k * r` input samples
/// only.
proof fn lemma_combs_after_prefix(
    intg: Seq<i32>,
    comb: Seq<i32>,
    x: Seq<i16>,
    longer: Seq<i16>,
    r: int,
    k: int,
)
    requires
        r > 0,
        0 <= k,
        k * r <= x.len() <= longer.len(),
        longer.take(x.len() as int) == x,
    ensures
        combs_after(intg, comb, longer, r, k) == combs_after(intg, comb, x, r, k),
    decreases k,
{
    if k > 0 {
        assert((k - 1) * r <= k * r) by (nonlinear_arith)
            requires
                r > 0,
        ;
        lemma_combs_after_prefix(intg, comb, x, longer, r, k - 1);
        assert(longer.take(k * r) =~= longer.take(x.len() as int).take(k * r));
    }
}

/// The comb registers after two blocks are those after the second block,
/// for a filter that starts where the first block has left it.
proof fn lemma_combs_after_concat(
    intg: Seq<i32>,
    comb: Seq<i32>,
    first: Seq<i16>,
    second: Seq<i16>,
    r: int,
    n: int,
    k: int,
)
    requires
        r > 0,
        0 <= n,
        0 <= k,
        first.len() == n * r,
        k * r <= second.len(),
    ensures
        combs_after(intg, comb, first + second, r, n + k) == combs_after(
            integrated_all(intg, first),
            combs_after(intg, comb, first, r, n),
            second,
            r,
            k,
        ),
    decreases k,
{
    if k == 0 {
        assert((first + second).take(first.len() as int) =~= first);
        lemma_combs_after_prefix(intg, comb, first, first + second, r, n);
    } else {
        assert((k - 1) * r <= k * r) by (nonlinear_arith)
            requires
                r > 0,
        ;
        lemma_combs_after_concat(intg, comb, first, second, r, n, k - 1);
        assert((n + k) * r == n * r + k * r) by (nonlinear_arith);
        assert((first + second).take((n + k) * r) =~= first + second.take(k * r));
        lemma_integrated_all_concat(intg, first, second.take(k * r));
    }
}

/// A filter keeps between blocks what it needs: the output for two blocks,
/// each a multiple of the ratio long, is the output for the first followed
/// by the output for the second of a filter that starts where the first
/// block has left it.
pub proof fn lemma_outputs_concat(
    intg: Seq<i32>,
    comb: Seq<i32>,
    first: Seq<i16>,
    second: Seq<i16>,
    r: int,
    shift: nat,
)
    requires
        r > 0,
        first.len() % (r as nat) == 0,
        second.len() % (r as nat) == 0,
    ensures
        outputs(intg, comb, first + second, r, shift) == outputs(intg, comb, first, r, shift)
            + outputs(
            integrated_all(intg, first),
            combs_after(intg, comb, first, r, first.len() as int / r),
            second,
            r,
            shift,
        ),
        integrated_all(intg, first + second) == integrated_all(
            integrated_all(intg, first),
            second,
        ),
        combs_after(intg, comb, first + second, r, (first + second).len() as int / r)
            == combs_after(
            integrated_all(intg, first),
            combs_after(intg, comb, first, r, first.len() as int / r),
            second,
            r,
            second.len() as int / r,
        ),
{
    let n = first.len() as int / r;
    let m = second.len() as int / r;
    let both = first + second;
    assert(first.len() == n * r && second.len() == m * r && both.len() as int / r == n + m)
        by (nonlinear_arith)
        requires
            r > 0,
            n == first.len() as int / r,
            m == second.len() as int / r,
            first.len() as int % r == 0,
            second.len() as int % r == 0,
            both.len() == first.len() + second.len(),
    ;
    let whole = outputs(intg, comb, both, r, shift);
    let head = outputs(intg, comb, first, r, shift);
    let tail = outputs(
        integrated_all(intg, first),
        combs_after(intg, comb, first, r, n),
        second,
        r,
        shift,
    );
    assert forall|k: int| 0 <= k < n + m implies whole[k] == (head + tail)[k] by {
        if k < n {
            assert((k + 1) * r <= n * r) by (nonlinear_arith)
                requires
                    k < n,
                    r > 0,
            ;
            assert(both.take(first.len() as int) =~= first);
            lemma_combs_after_prefix(intg, comb, first, both, r, k + 1);
        } else {
            assert((k - n + 1) * r <= m * r) by (nonlinear_arith)
                requires
                    k - n < m,
                    r > 0,
            ;
            lemma_combs_after_concat(intg, comb, first, second, r, n, k - n + 1);
        }
    }
    assert(whole =~= head + tail);
    lemma_integrated_all_concat(intg, first, second);
    lemma_combs_after_concat(intg, comb, first, second, r, n, m);
}

} // verus!
