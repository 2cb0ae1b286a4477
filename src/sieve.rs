use vstd::prelude::*;
use vstd::arithmetic::div_mod::{lemma_fundamental_div_mod, lemma_mod_multiples_basic};

use crate::bit_vector::{BitVector, WORD_BITS};

verus! {

/// The largest sieve limit accepted: strides and squares stay far from overflow.
pub const MAX_LIMIT: u64 = 0x4000_0000_0000_0000;

/// A limit that the sieve handles: at most `MAX_LIMIT`, with room in `usize`
/// for its strides.
pub open spec fn supported(n: int) -> bool {
    0 <= n <= MAX_LIMIT && 5 * n + 8 <= usize::MAX
}

/// `n` is prime: at least two, and no number in `[2, n)` divides it.
pub open spec fn is_prime(n: int) -> bool {
    n >= 2 && forall|k: int| 2 <= k < n ==> #[trigger] (n % k) != 0
}

/// The number of primes below `n`.
pub open spec fn primes_below(n: int) -> nat
    decreases n,
{
    if n <= 2 {
        0
    } else {
        primes_below(n - 1) + if is_prime(n - 1) { 1nat } else { 0nat }
    }
}

/// The number of odd `x` in `[3, n)` that `m` marks.
pub open spec fn marked_odd_below(m: Seq<bool>, n: int) -> nat
    decreases n,
{
    if n <= 3 {
        0
    } else {
        marked_odd_below(m, n - 1) + if (n - 1) % 2 == 1 && m[n - 1] { 1nat } else { 0nat }
    }
}

/// The number 2 followed by the marked odd `x` in `[3, n)`, increasing.
pub open spec fn marked_list(m: Seq<bool>, n: int) -> Seq<u64>
    decreases n,
{
    if n <= 3 {
        seq![2u64]
    } else {
        marked_list(m, n - 1) + if (n - 1) % 2 == 1 && m[n - 1] {
            seq![(n - 1) as u64]
        } else {
            Seq::empty()
        }
    }
}

/// The known prime counts: for each power of ten from 10 to 10^10, the number
/// of primes below it.
pub open spec fn known_count(limit: u64) -> Option<u64> {
    match limit {
        10 => Some(4),
        100 => Some(25),
        1_000 => Some(168),
        10_000 => Some(1_229),
        100_000 => Some(9_592),
        1_000_000 => Some(78_498),
        10_000_000 => Some(664_579),
        100_000_000 => Some(5_761_455),
        1_000_000_000 => Some(50_847_534),
        10_000_000_000 => Some(455_052_511),
        _ => None,
    }
}

/// Looks `limit` up in the table of known prime counts.
pub fn prime_count_results(limit: u64) -> (r: Option<u64>)
    ensures
        r == known_count(limit),
{
    match limit {
        10 => Some(4),
        100 => Some(25),
        1_000 => Some(168),
        10_000 => Some(1_229),
        100_000 => Some(9_592),
        1_000_000 => Some(78_498),
        10_000_000 => Some(664_579),
        100_000_000 => Some(5_761_455),
        1_000_000_000 => Some(50_847_534),
        10_000_000_000 => Some(455_052_511),
        _ => None,
    }
}

/// Every odd `x` in `[3, n)` that has an odd divisor `d` in `[3, f)` with
/// `d * d <= x` is unmarked in `m`.
spec fn struck_below(m: Seq<bool>, n: int, f: int) -> bool {
    forall|x: int, d: int|
        3 <= x < n && x % 2 == 1 && 3 <= d < f && d % 2 == 1 && #[trigger] (x % d) == 0 && d * d
            <= x ==> !m[x]
}

/// An odd composite `x` has an odd divisor `a >= 3` with `a * a <= x`.
proof fn lemma_small_factor(x: int) -> (a: int)
    requires
        x >= 3,
        x % 2 == 1,
        !is_prime(x),
    ensures
        3 <= a < x,
        a % 2 == 1,
        x % a == 0,
        a * a <= x,
{
    let k = choose|k: int| 2 <= k < x && #[trigger] (x % k) == 0;
    let b = x / k;
    lemma_fundamental_div_mod(x, k);
    assert(x == k * b);
    let a = if k * k <= x {
        k
    } else {
        assert(b < k && b >= 1) by (nonlinear_arith)
            requires
                x == k * b,
                k * k > x,
                k >= 2,
                x >= 3,
        ;
        assert(b >= 2) by (nonlinear_arith)
            requires
                x == k * b,
                k < x,
                b >= 1,
        ;
        assert(b * b <= x) by (nonlinear_arith)
            requires
                x == k * b,
                b < k,
                b >= 1,
        ;
        lemma_mod_multiples_basic(k, b);
        b
    };
    assert(x % a == 0);
    assert(a < x) by (nonlinear_arith)
        requires
            a * a <= x,
            a >= 2,
    ;
    lemma_fundamental_div_mod(x, a);
    lemma_fundamental_div_mod(a, 2);
    assert(a % 2 == 1) by (nonlinear_arith)
        requires
            x == a * (x / a),
            a == 2 * (a / 2) + a % 2,
            0 <= a % 2 < 2,
            x % 2 == 1,
    {
        if a % 2 == 0 {
            lemma_mod_multiples_basic((a / 2) * (x / a), 2);
            assert(x == ((a / 2) * (x / a)) * 2);
        }
    }
    a
}

/// Divisibility is transitive.
proof fn lemma_divides_trans(x: int, d: int, a: int)
    requires
        a > 0,
        d > 0,
        x % d == 0,
        d % a == 0,
    ensures
        x % a == 0,
{
    lemma_fundamental_div_mod(x, d);
    lemma_fundamental_div_mod(d, a);
    assert(x == ((x / d) * (d / a)) * a) by (nonlinear_arith)
        requires
            x == d * (x / d),
            d == a * (d / a),
    ;
    lemma_mod_multiples_basic((x / d) * (d / a), a);
}

/// A composite candidate adds nothing to strike: its small factor did it.
proof fn lemma_skip_composite(m: Seq<bool>, n: int, d: int)
    requires
        struck_below(m, n, d),
        d >= 3,
        d % 2 == 1,
        !is_prime(d),
    ensures
        struck_below(m, n, d + 2),
{
    let a = lemma_small_factor(d);
    assert forall|x: int, e: int|
        3 <= x < n && x % 2 == 1 && 3 <= e < d + 2 && e % 2 == 1 && #[trigger] (x % e) == 0 && e
            * e <= x implies !m[x] by {
        if e == d {
            lemma_divides_trans(x, d, a);
            assert(a * a <= x) by (nonlinear_arith)
                requires
                    a * a <= d,
                    d * d <= x,
                    d >= 3,
            ;
            assert(x % a == 0);
        }
    }
}

/// An odd multiple `x >= f * f` of an odd `f` lies on the stride `2 * f`
/// that starts at `f * f`.
proof fn lemma_on_stride(x: int, f: int)
    requires
        f >= 3,
        f % 2 == 1,
        x % 2 == 1,
        x % f == 0,
        f * f <= x,
    ensures
        (x - f * f) % (2 * f) == 0,
{
    let j = x / f;
    lemma_fundamental_div_mod(x, f);
    assert(x == f * j);
    assert(j >= f) by (nonlinear_arith)
        requires
            x == f * j,
            f * f <= x,
            f >= 3,
    ;
    lemma_fundamental_div_mod(j, 2);
    if j % 2 == 0 {
        lemma_mod_multiples_basic(f * (j / 2), 2);
        assert(x == (f * (j / 2)) * 2) by (nonlinear_arith)
            requires
                x == f * j,
                j == 2 * (j / 2),
        ;
    }
    assert(j % 2 == 1);
    let h = (j - f) / 2;
    lemma_fundamental_div_mod(j - f, 2);
    assert((j - f) % 2 == 0);
    assert(x - f * f == h * (2 * f)) by (nonlinear_arith)
        requires
            x == f * j,
            j - f == 2 * h,
    ;
    lemma_mod_multiples_basic(h, 2 * f);
}

/// No number strictly between two neighbours of a stride lies on it.
proof fn lemma_between_strides(x: int, s: int, p: int, k: int)
    requires
        p > 0,
        s + k * p < x < s + (k + 1) * p,
    ensures
        (x - s) % p != 0,
{
    if (x - s) % p == 0 {
        let j = (x - s) / p;
        lemma_fundamental_div_mod(x - s, p);
        assert(false) by (nonlinear_arith)
            requires
                x - s == p * j,
                s + k * p < x < s + (k + 1) * p,
                p > 0,
        ;
    }
}

/// A number on the stride of an odd `f` from `f * f` is odd and composite.
proof fn lemma_stride_composite(x: int, f: int, k: int)
    requires
        f >= 3,
        f % 2 == 1,
        k >= 0,
        x == f * f + k * (2 * f),
    ensures
        !is_prime(x),
        x % 2 == 1,
        9 <= f * f <= x,
{
    assert(x == (f + 2 * k) * f) by (nonlinear_arith)
        requires
            x == f * f + k * (2 * f),
    ;
    lemma_mod_multiples_basic(f + 2 * k, f);
    assert(f < x) by (nonlinear_arith)
        requires
            x == (f + 2 * k) * f,
            f >= 2,
            k >= 0,
    ;
    assert(x % f == 0);
    let a = f / 2;
    lemma_fundamental_div_mod(f, 2);
    assert(x == 2 * (2 * a * a + 2 * a + k * f) + 1) by (nonlinear_arith)
        requires
            x == f * f + k * (2 * f),
            f == 2 * a + 1,
    ;
    assert(9 <= f * f <= x) by (nonlinear_arith)
        requires
            x == f * f + k * (2 * f),
            f >= 3,
            k >= 0,
    ;
}

/// Once every odd multiple of `f` from `f * f` up is unmarked, `f` is done.
proof fn lemma_stride_struck(m: Seq<bool>, n: int, f: int)
    requires
        f >= 3,
        f % 2 == 1,
        struck_below(m, n, f),
        forall|x: int|
            f * f <= x < n && #[trigger] ((x - f * f) % (2 * f)) == 0 ==> !m[x],
    ensures
        struck_below(m, n, f + 2),
{
    assert forall|x: int, d: int|
        3 <= x < n && x % 2 == 1 && 3 <= d < f + 2 && d % 2 == 1 && #[trigger] (x % d) == 0 && d
            * d <= x implies !m[x] by {
        if d == f {
            lemma_on_stride(x, d);
        }
    }
}

/// A factor past the square root of `n` has no multiple to strike below `n`.
proof fn lemma_past_root(m: Seq<bool>, n: int, q: int, f: int)
    requires
        struck_below(m, n, f),
        f % 2 == 1,
        q >= 0,
        f > q,
        n < (q + 1) * (q + 1),
    ensures
        struck_below(m, n, f + 2),
{
    assert forall|x: int, d: int|
        3 <= x < n && x % 2 == 1 && 3 <= d < f + 2 && d % 2 == 1 && #[trigger] (x % d) == 0 && d
            * d <= x implies !m[x] by {
        if d == f {
            assert(false) by (nonlinear_arith)
                requires
                    d >= q + 1,
                    q >= 0,
                    d * d <= x,
                    x < n,
                    n < (q + 1) * (q + 1),
            ;
        } else {
            assert(d < f);
        }
    }
}

/// The largest `q` with `q * q <= n`.
fn isqrt(n: u64) -> (q: u64)
    requires
        n <= MAX_LIMIT,
    ensures
        q * q <= n,
        n < (q + 1) * (q + 1),
{
    let mut q: u64 = 0;
    loop
        invariant
            n <= MAX_LIMIT,
            q * q <= n,
            q <= 0x8000_0000,
        decreases 0x8000_0000 - q,
    {
        assert((q + 1) * (q + 1) <= 0x8000_0001 * 0x8000_0001) by (nonlinear_arith)
            requires
                q <= 0x8000_0000,
        ;
        if (q + 1) * (q + 1) > n {
            return q;
        }
        assert(q + 1 <= 0x8000_0000) by (nonlinear_arith)
            requires
                (q + 1) * (q + 1) <= n,
                n <= 0x4000_0000_0000_0000,
        ;
        q = q + 1;
    }
}

/// Whether the sieve handles `limit` on this machine.
pub fn limit_supported(limit: u64) -> (r: bool)
    ensures
        r == supported(limit as int),
{
    limit <= MAX_LIMIT && (limit as u128) * 5 + 8 <= usize::MAX as u128
}

/// `a` and `b` have one length and agree outside the odd numbers in `[3, n)`.
pub open spec fn same_outside(a: Seq<bool>, b: Seq<bool>, n: int) -> bool {
    &&& a.len() == b.len()
    &&& forall|i: int|
        0 <= i < a.len() && !(3 <= i < n && i % 2 == 1) ==> #[trigger] a[i] == b[i]
}

/// Every bit set in `a` is set in `b`.
pub open spec fn only_cleared(a: Seq<bool>, b: Seq<bool>) -> bool {
    forall|i: int| 0 <= i < a.len() && #[trigger] a[i] ==> b[i]
}

/// A sieve of Eratosthenes over the numbers below a limit. Bit `x` of the
/// store stands for the number `x`; only the odd numbers from 3 are sieved.
pub struct PrimeSieve {
    sieve_size: u64,
    bits: BitVector,
}

impl PrimeSieve {
    /// The exclusive upper bound of the numbers sieved.
    pub closed spec fn limit(&self) -> nat {
        self.sieve_size as nat
    }

    /// The marks: `true` is "possibly prime".
    pub closed spec fn marks(&self) -> Seq<bool> {
        self.bits@
    }

    pub open spec fn wf(&self) -> bool {
        &&& supported(self.limit() as int)
        &&& self.limit() <= self.marks().len() <= usize::MAX
    }

    /// Every odd number in `[3, limit)` is still marked.
    pub open spec fn fresh(&self) -> bool {
        forall|x: int| 3 <= x < self.limit() && x % 2 == 1 ==> #[trigger] self.marks()[x]
    }

    /// Only composites have been unmarked among the odd numbers in `[3, limit)`.
    pub open spec fn consistent(&self) -> bool {
        forall|x: int|
            3 <= x < self.limit() && x % 2 == 1 && !#[trigger] self.marks()[x] ==> !is_prime(x)
    }

    /// Among the odd numbers in `[3, limit)`, exactly the primes are marked.
    pub open spec fn sieved(&self) -> bool {
        forall|x: int|
            3 <= x < self.limit() && x % 2 == 1 ==> #[trigger] self.marks()[x] == is_prime(x)
    }

    /// A sieve for the numbers below `sieve_size`, every bit of its store
    /// marked possibly prime; the store holds `sieve_size` bits rounded up
    /// to whole words.
    pub fn new(sieve_size: u64) -> (r: PrimeSieve)
        requires
            supported(sieve_size as int),
        ensures
            r.wf(),
            r.limit() == sieve_size,
            r.marks().len() == 64 * ((sieve_size + 63) / 64),
            r.marks() == Seq::new(r.marks().len(), |i: int| true),
            r.fresh(),
            r.consistent(),
    {
        let n = sieve_size as usize;
        let words = (n + WORD_BITS - 1) / WORD_BITS;
        proof {
            lemma_fundamental_div_mod(n + 63, 64);
        }
        PrimeSieve { sieve_size, bits: BitVector::new(words, true) }
    }

    /// Unmarks the odd multiples of `factor` from `factor * factor` up.
    fn cross_off(&mut self, factor: usize)
        requires
            old(self).wf(),
            old(self).consistent(),
            factor >= 3,
            factor % 2 == 1,
            factor * factor <= old(self).limit(),
            struck_below(old(self).marks(), old(self).limit() as int, factor as int),
        ensures
            final(self).wf(),
            final(self).limit() == old(self).limit(),
            same_outside(final(self).marks(), old(self).marks(), old(self).limit() as int),
            only_cleared(final(self).marks(), old(self).marks()),
            final(self).consistent(),
            struck_below(final(self).marks(), final(self).limit() as int, factor + 2),
    {
        let n = self.sieve_size as usize;
        proof {
            assert(factor <= n) by (nonlinear_arith)
                requires
                    factor * factor <= n,
                    factor >= 3,
            ;
        }
        let mut num = factor * factor;
        let ghost mut k: int = 0;
        while num < n
            invariant
                self.wf(),
                self.consistent(),
                n == self.limit(),
                same_outside(self.marks(), old(self).marks(), n as int),
                only_cleared(self.marks(), old(self).marks()),
                factor >= 3,
                factor % 2 == 1,
                factor <= n,
                k >= 0,
                num == factor * factor + k * (2 * factor),
                num < n + 2 * factor,
                struck_below(self.marks(), n as int, factor as int),
                forall|x: int|
                    factor * factor <= x < num && #[trigger] ((x - factor * factor) % (2
                        * factor)) == 0 ==> !self.marks()[x],
            decreases n + 2 * factor - num,
        {
            proof {
                lemma_stride_composite(num as int, factor as int, k);
                lemma_mod_multiples_basic(k, 2 * factor);
                assert(num - factor * factor == k * (2 * factor));
            }
            let ghost before = self.marks();
            self.bits.clear_bit(num);
            proof {
                assert(self.marks() == before.update(num as int, false));
                assert forall|i: int|
                    0 <= i < self.marks().len() && !(3 <= i < n && i % 2 == 1) implies #[trigger] self.marks()[i]
                    == old(self).marks()[i] by {
                    assert(i != num);
                    assert(before[i] == old(self).marks()[i]);
                }
                assert forall|i: int| 0 <= i < self.marks().len() && #[trigger] self.marks()[i] implies old(self).marks()[i] by {
                    assert(before[i]);
                }
            }
            let ghost prev = num as int;
            num = num + 2 * factor;
            proof {
                k = k + 1;
                assert(num == factor * factor + k * (2 * factor)) by (nonlinear_arith)
                    requires
                        num == factor * factor + (k - 1) * (2 * factor) + 2 * factor,
                ;
                assert forall|x: int|
                    factor * factor <= x < num && #[trigger] ((x - factor * factor) % (2
                        * factor)) == 0 implies !self.marks()[x] by {
                    if prev < x {
                        lemma_between_strides(x, factor * factor, 2 * factor, k - 1);
                    }
                }
            }
        }
        proof {
            lemma_stride_struck(self.marks(), n as int, factor as int);
        }
    }

    /// Unmarks the odd multiples of `factor` from `factor * factor` up,
    /// counting the strides with a `for` loop.
    fn cross_off_range(&mut self, factor: usize)
        requires
            old(self).wf(),
            old(self).consistent(),
            factor >= 3,
            factor % 2 == 1,
            factor * factor <= old(self).limit(),
            struck_below(old(self).marks(), old(self).limit() as int, factor as int),
        ensures
            final(self).wf(),
            final(self).limit() == old(self).limit(),
            same_outside(final(self).marks(), old(self).marks(), old(self).limit() as int),
            only_cleared(final(self).marks(), old(self).marks()),
            final(self).consistent(),
            struck_below(final(self).marks(), final(self).limit() as int, factor + 2),
    {
        let n = self.sieve_size as usize;
        proof {
            assert(factor <= n) by (nonlinear_arith)
                requires
                    factor * factor <= n,
                    factor >= 3,
            ;
        }
        let ff = factor * factor;
        let stride = 2 * factor;
        let count = (n - ff + stride - 1) / stride;
        proof {
            assert(ff + 0 * stride == ff);
        }
        for j in 0..count
            invariant
                self.wf(),
                self.consistent(),
                n == self.limit(),
                same_outside(self.marks(), old(self).marks(), n as int),
                only_cleared(self.marks(), old(self).marks()),
                factor >= 3,
                factor % 2 == 1,
                ff == factor * factor,
                ff <= n,
                stride == 2 * factor,
                count == (n - ff + stride - 1) / (stride as int),
                struck_below(self.marks(), n as int, factor as int),
                forall|x: int|
                    ff <= x < ff + j * stride && #[trigger] ((x - ff) % (stride as int))
                        == 0 ==> !self.marks()[x],
        {
            proof {
                lemma_fundamental_div_mod(n - ff + stride - 1, stride as int);
                assert(ff + j * stride < n) by (nonlinear_arith)
                    requires
                        j < count,
                        n - ff + stride - 1 == stride * count + (n - ff + stride - 1)
                            % (stride as int),
                        0 <= (n - ff + stride - 1) % (stride as int) < stride,
                        stride > 0,
                ;
                lemma_stride_composite(ff + j * stride, factor as int, j as int);
                lemma_mod_multiples_basic(j as int, stride as int);
            }
            let num = ff + j * stride;
            let ghost before = self.marks();
            self.bits.clear_bit(num);
            proof {
                assert(self.marks() == before.update(num as int, false));
                assert forall|i: int|
                    0 <= i < self.marks().len() && !(3 <= i < n && i % 2 == 1) implies #[trigger] self.marks()[i]
                    == old(self).marks()[i] by {
                    assert(i != num);
                    assert(before[i] == old(self).marks()[i]);
                }
                assert forall|i: int| 0 <= i < self.marks().len() && #[trigger] self.marks()[i] implies old(self).marks()[i] by {
                    assert(before[i]);
                }
                assert forall|x: int|
                    ff <= x < ff + (j + 1) * stride && #[trigger] ((x - ff) % (
                    stride as int)) == 0 implies !self.marks()[x] by {
                    if num < x {
                        lemma_between_strides(x, ff as int, stride as int, j as int);
                    }
                }
            }
        }
        proof {
            lemma_fundamental_div_mod(n - ff + stride - 1, stride as int);
            assert(ff + count * stride >= n) by (nonlinear_arith)
                requires
                    n - ff + stride - 1 == stride * count + (n - ff + stride - 1)
                        % (stride as int),
                    (n - ff + stride - 1) % (stride as int) < stride,
            ;
            lemma_stride_struck(self.marks(), n as int, factor as int);
        }
    }

    /// At the end of elimination: every odd composite below the limit has a
    /// factor under `f` and is unmarked.
    proof fn lemma_all_struck(&self, q: int, f: int)
        requires
            self.wf(),
            self.consistent(),
            struck_below(self.marks(), self.limit() as int, f),
            q >= 0,
            f > q,
            self.limit() < (q + 1) * (q + 1),
        ensures
            self.sieved(),
    {
        let m = self.marks();
        let n = self.limit() as int;
        assert forall|x: int| 3 <= x < n && x % 2 == 1 implies #[trigger] m[x] == is_prime(x) by {
            if !is_prime(x) {
                let a = lemma_small_factor(x);
                assert(a * a < (q + 1) * (q + 1));
                assert(a < q + 1) by (nonlinear_arith)
                    requires
                        a * a < (q + 1) * (q + 1),
                        q >= 0,
                        a >= 0,
                ;
            }
        }
    }

    /// Runs the elimination: afterwards exactly the odd primes below the
    /// limit are marked among the odd numbers from 3. Bits are only cleared,
    /// and only among the odd numbers in `[3, limit)`.
    pub fn run_sieve_no_iterators(&mut self)
        requires
            old(self).wf(),
            old(self).consistent(),
        ensures
            final(self).wf(),
            final(self).limit() == old(self).limit(),
            same_outside(final(self).marks(), old(self).marks(), old(self).limit() as int),
            only_cleared(final(self).marks(), old(self).marks()),
            final(self).sieved(),
    {
        let n = self.sieve_size as usize;
        let q64 = isqrt(self.sieve_size);
        proof {
            assert(q64 <= n) by (nonlinear_arith)
                requires
                    q64 * q64 <= n,
            ;
        }
        let q = q64 as usize;
        let mut factor: usize = 3;
        while factor <= q
            invariant
                self.wf(),
                self.consistent(),
                n == self.limit(),
                self.limit() == old(self).limit(),
                same_outside(self.marks(), old(self).marks(), n as int),
                only_cleared(self.marks(), old(self).marks()),
                q * q <= n,
                n < (q + 1) * (q + 1),
                factor >= 3,
                factor % 2 == 1,
                factor <= n + 3,
                struck_below(self.marks(), n as int, factor as int),
            decreases n + 3 - factor,
        {
            proof {
                assert(q <= n) by (nonlinear_arith)
                    requires
                        q * q <= n,
                        q >= 3,
                ;
            }
            let mut num = factor;
            let ghost start = factor;
            while num < n
                invariant_except_break
                    num < n + 2,
                    factor <= q,
                invariant
                    self.wf(),
                    self.consistent(),
                    n == self.limit(),
                    factor >= 3,
                    num >= factor,
                    factor >= start,
                    num % 2 == 1,
                    factor % 2 == 1,
                    struck_below(self.marks(), n as int, num as int),
                ensures
                    struck_below(self.marks(), n as int, factor as int),
                    factor >= 3,
                    factor % 2 == 1,
                    factor <= q || factor < n,
                    factor >= start,
                decreases n + 2 - num,
            {
                if self.bits.get_bit(num) {
                    factor = num;
                    break;
                }
                proof {
                    lemma_skip_composite(self.marks(), n as int, num as int);
                }
                num = num + 2;
            }
            if factor <= q {
                proof {
                    assert(factor * factor <= q * q) by (nonlinear_arith)
                        requires
                            factor <= q,
                    ;
                }
                self.cross_off(factor);
            } else {
                proof {
                    lemma_past_root(self.marks(), n as int, q as int, factor as int);
                }
            }
            factor = factor + 2;
        }
        proof {
            self.lemma_all_struck(q as int, factor as int);
        }
    }

    /// The same elimination as `run_sieve_no_iterators`, written with `for`
    /// loops over index ranges.
    pub fn _run_sieve(&mut self)
        requires
            old(self).wf(),
            old(self).consistent(),
        ensures
            final(self).wf(),
            final(self).limit() == old(self).limit(),
            same_outside(final(self).marks(), old(self).marks(), old(self).limit() as int),
            only_cleared(final(self).marks(), old(self).marks()),
            final(self).sieved(),
    {
        let n = self.sieve_size as usize;
        let q64 = isqrt(self.sieve_size);
        proof {
            assert(q64 <= n) by (nonlinear_arith)
                requires
                    q64 * q64 <= n,
            ;
        }
        let q = q64 as usize;
        let mut factor: usize = 3;
        while factor <= q
            invariant
                self.wf(),
                self.consistent(),
                n == self.limit(),
                self.limit() == old(self).limit(),
                same_outside(self.marks(), old(self).marks(), n as int),
                only_cleared(self.marks(), old(self).marks()),
                q * q <= n,
                n < (q + 1) * (q + 1),
                factor >= 3,
                factor % 2 == 1,
                factor <= n + 3,
                struck_below(self.marks(), n as int, factor as int),
            decreases n + 3 - factor,
        {
            proof {
                assert(q <= n) by (nonlinear_arith)
                    requires
                        q * q <= n,
                        q >= 3,
                ;
            }
            let ghost start = factor;
            let span = (n - factor + 1) / 2;
            for k in 0..span
                invariant_except_break
                    factor <= q,
                    factor == start,
                    struck_below(self.marks(), n as int, start + 2 * k),
                invariant
                    self.wf(),
                    self.consistent(),
                    n == self.limit(),
                    factor >= 3,
                    factor % 2 == 1,
                    factor >= start,
                    span == (n - start + 1) / 2,
                    start <= q,
                    start % 2 == 1,
                ensures
                    struck_below(self.marks(), n as int, factor as int),
                    factor >= 3,
                    factor % 2 == 1,
                    factor >= start,
                    factor <= q || factor < n,
            {
                let num = factor + 2 * k;
                if self.bits.get_bit(num) {
                    factor = num;
                    break;
                }
                proof {
                    lemma_skip_composite(self.marks(), n as int, num as int);
                }
            }
            if factor <= q {
                proof {
                    assert(factor * factor <= q * q) by (nonlinear_arith)
                        requires
                            factor <= q,
                    ;
                }
                self.cross_off_range(factor);
            } else {
                proof {
                    lemma_past_root(self.marks(), n as int, q as int, factor as int);
                }
            }
            factor = factor + 2;
        }
        proof {
            self.lemma_all_struck(q as int, factor as int);
        }
    }

    /// The number of odd numbers from 3 below the limit that are marked.
    pub open spec fn prime_count(&self) -> nat {
        marked_odd_below(self.marks(), self.limit() as int)
    }

    /// The table knows the limit and its count equals `prime_count() + 1`
    /// (the one added is the prime 2, which is not stored).
    pub open spec fn validation(&self) -> bool {
        match known_count(self.limit() as u64) {
            Some(v) => v as int == self.prime_count() + 1,
            None => false,
        }
    }

    /// The sieve's limit.
    pub fn limit_value(&self) -> (r: u64)
        ensures
            r == self.limit(),
    {
        self.sieve_size
    }

    /// Counts the marked odd numbers in `[3, limit)`; after a sieve run this
    /// is the number of primes below the limit other than 2.
    pub fn count_primes(&self) -> (r: u64)
        requires
            self.wf(),
        ensures
            r == self.prime_count(),
    {
        let n = self.sieve_size as usize;
        let mut sum: u64 = 0;
        let mut x: usize = 3;
        while x < n
            invariant
                self.wf(),
                n == self.limit(),
                x % 2 == 1,
                3 <= x,
                x <= n + 1 || x == 3,
                sum <= x,
                sum == marked_odd_below(self.marks(), x as int),
            decreases n + 1 - x,
        {
            proof {
                let m = self.marks();
                assert(marked_odd_below(m, x + 1) == marked_odd_below(m, x as int) + if m[x as int] {
                    1nat
                } else {
                    0nat
                });
                assert(marked_odd_below(m, x + 2) == marked_odd_below(m, x + 1));
            }
            if self.bits.get_bit(x) {
                sum = sum + 1;
            }
            x = x + 2;
        }
        proof {
            let m = self.marks();
            if n >= 3 && x == n + 1 {
                assert(marked_odd_below(m, x as int) == marked_odd_below(m, n as int));
            }
        }
        sum
    }

    /// The primes found, in increasing order: 2, then each marked odd number
    /// in `[3, limit)`.
    pub fn prime_list(&self) -> (r: Vec<u64>)
        requires
            self.wf(),
        ensures
            r@ == marked_list(self.marks(), self.limit() as int),
    {
        let n = self.sieve_size as usize;
        let mut r: Vec<u64> = Vec::new();
        r.push(2);
        let mut x: usize = 3;
        while x < n
            invariant
                self.wf(),
                n == self.limit(),
                x % 2 == 1,
                3 <= x,
                x <= n + 1 || x == 3,
                r@ == marked_list(self.marks(), x as int),
            decreases n + 1 - x,
        {
            proof {
                let m = self.marks();
                assert(marked_list(m, x + 1) == marked_list(m, x as int) + if m[x as int] {
                    seq![x as u64]
                } else {
                    Seq::<u64>::empty()
                });
                assert(marked_list(m, x + 2) =~= marked_list(m, x + 1));
            }
            if self.bits.get_bit(x) {
                r.push(x as u64);
            }
            proof {
                let m = self.marks();
                assert(r@ =~= marked_list(m, x + 2));
            }
            x = x + 2;
        }
        proof {
            let m = self.marks();
            if n >= 3 && x == n + 1 {
                assert(marked_list(m, x as int) =~= marked_list(m, n as int));
            }
        }
        r
    }

    /// Checks the count against the table of known prime counts: false for a
    /// limit that the table does not hold.
    pub fn validate_results(&self) -> (r: bool)
        requires
            self.wf(),
        ensures
            r == self.validation(),
    {
        match prime_count_results(self.sieve_size) {
            Some(v) => v as u128 == self.count_primes() as u128 + 1,
            None => false,
        }
    }
}

/// Relates the marks to the primes, from 3 up to `x`.
proof fn lemma_sieved_counts(s: &PrimeSieve, x: int)
    requires
        s.wf(),
        s.sieved(),
        3 <= x <= s.limit(),
    ensures
        marked_odd_below(s.marks(), x) + 1 == primes_below(x),
    decreases x,
{
    if x == 3 {
        assert(primes_below(2) == 0);
        assert(is_prime(2));
    } else {
        lemma_sieved_counts(s, x - 1);
        if (x - 1) % 2 == 0 {
            assert((x - 1) % 2 == 0);
            assert(!is_prime(x - 1));
        }
    }
}

/// After a complete sieve run over a limit of at least 3, the count plus one
/// (for the prime 2) is the number of primes below the limit, and validation
/// succeeds exactly when the table holds that number for the limit.
pub proof fn lemma_sieve_count_exact(s: &PrimeSieve)
    requires
        s.wf(),
        s.sieved(),
        s.limit() >= 3,
    ensures
        s.prime_count() + 1 == primes_below(s.limit() as int),
        s.validation() <==> (known_count(s.limit() as u64) is Some && known_count(
            s.limit() as u64,
        )->0 == primes_below(s.limit() as int)),
{
    lemma_sieved_counts(s, s.limit() as int);
}

/// The sieved store is determined by the store it started from: two sieved
/// stores over one limit that agree outside the odd numbers in `[3, limit)`
/// are equal. So a second run changes nothing, and both elimination loops,
/// started from one store, end in the same one.
pub proof fn lemma_sieved_store_determined(a: &PrimeSieve, b: &PrimeSieve)
    requires
        a.wf(),
        b.wf(),
        a.sieved(),
        b.sieved(),
        a.limit() == b.limit(),
        same_outside(a.marks(), b.marks(), a.limit() as int),
    ensures
        a.marks() == b.marks(),
{
    assert(a.marks() =~= b.marks());
}

} // verus!
