//! The candidate generator: a base-2048 odometer over word indices.
//!
//! Digit 0 is the least significant; the last digit is the outer one that
//! partitions are cut along.
use vstd::prelude::*;

verus! {

/// Number of values each digit takes: the size of the wordlist.
pub const RADIX: usize = 2048;

/// The number a digit vector stands for, least significant digit first.
pub open spec fn value_of(d: Seq<usize>) -> nat
    decreases d.len(),
{
    if d.len() == 0 {
        0
    } else {
        d[0] as nat + 2048 * value_of(d.drop_first())
    }
}

/// Every digit is below the radix.
pub open spec fn digits_valid(d: Seq<usize>) -> bool {
    forall|i: int| 0 <= i < d.len() ==> d[i] < 2048
}

/// `2048^k`: how many digit vectors of length `k` there are.
pub open spec fn space(k: nat) -> nat
    decreases k,
{
    if k == 0 {
        1
    } else {
        2048 * space((k - 1) as nat)
    }
}

/// The `k` digits of `n`, least significant first.
pub open spec fn digits_of(n: nat, k: nat) -> Seq<usize>
    decreases k,
{
    if k == 0 {
        Seq::empty()
    } else {
        seq![(n % 2048) as usize] + digits_of(n / 2048, (k - 1) as nat)
    }
}

pub proof fn lemma_space_positive(k: nat)
    ensures
        space(k) >= 1,
    decreases k,
{
    if k > 0 {
        lemma_space_positive((k - 1) as nat);
    }
}

pub proof fn lemma_value_bound(d: Seq<usize>)
    requires
        digits_valid(d),
    ensures
        value_of(d) < space(d.len()),
    decreases d.len(),
{
    if d.len() > 0 {
        let t = d.drop_first();
        lemma_value_bound(t);
        let v = value_of(t);
        let s = space(t.len());
        assert(d[0] < 2048);
        assert(d[0] as nat + 2048 * v < 2048 * s) by (nonlinear_arith)
            requires
                d[0] < 2048,
                v < s,
        ;
    }
}

pub proof fn lemma_digits_of_value(n: nat, k: nat)
    requires
        n < space(k),
    ensures
        digits_of(n, k).len() == k,
        digits_valid(digits_of(n, k)),
        value_of(digits_of(n, k)) == n,
    decreases k,
{
    if k > 0 {
        let q = n / 2048;
        let s = space((k - 1) as nat);
        assert(q < s) by (nonlinear_arith)
            requires
                n < 2048 * s,
                q == n / 2048,
        ;
        lemma_digits_of_value(q, (k - 1) as nat);
        let d = digits_of(n, k);
        assert(d.drop_first() =~= digits_of(q, (k - 1) as nat));
        assert(n == n % 2048 + 2048 * q) by (nonlinear_arith)
            requires
                q == n / 2048,
        ;
    }
}

pub proof fn lemma_value_of_digits(d: Seq<usize>)
    requires
        digits_valid(d),
    ensures
        digits_of(value_of(d), d.len()) == d,
    decreases d.len(),
{
    if d.len() > 0 {
        let t = d.drop_first();
        let v = value_of(t);
        lemma_value_of_digits(t);
        let n = value_of(d);
        let x = d[0] as nat;
        assert(n % 2048 == x && n / 2048 == v) by (nonlinear_arith)
            requires
                n == x + 2048 * v,
                x < 2048,
        ;
        assert(digits_of(n, d.len()) =~= d);
    }
}

/// Splitting a digit vector at `i`: the low part plus `2048^i` times the high part.
#[verifier::spinoff_prover]
pub proof fn lemma_value_split(s: Seq<usize>, i: int)
    requires
        0 <= i <= s.len(),
    ensures
        value_of(s) == value_of(s.take(i)) + space(i as nat) * value_of(s.skip(i)),
    decreases i,
{
    if i == 0 {
        assert(s.take(0) =~= Seq::<usize>::empty());
        assert(value_of(s.take(0)) == 0);
        assert(space(0) == 1);
        assert(s.skip(0) =~= s);
        let v = value_of(s);
        assert(v == 0 + 1 * v);
    } else {
        let t = s.drop_first();
        lemma_value_split(t, i - 1);
        assert(s.take(i).drop_first() =~= t.take(i - 1));
        assert(s.skip(i) =~= t.skip(i - 1));
        let a = value_of(t.take(i - 1));
        let b = value_of(t.skip(i - 1));
        let p = space((i - 1) as nat);
        let x = s[0] as nat;
        let vs = value_of(s);
        let vl = value_of(s.take(i));
        let vh = value_of(s.skip(i));
        let sp = space(i as nat);
        assert(vs == x + 2048 * value_of(t));
        assert(vl == x + 2048 * a);
        assert(sp == 2048 * p);
        assert(vh == b);
        assert(vs == vl + sp * vh) by (nonlinear_arith)
            requires
                vs == x + 2048 * (a + p * b),
                vl == x + 2048 * a,
                sp == 2048 * p,
                vh == b,
        ;
    }
}

/// A run of maximal digits stands for `2048^n - 1`.
proof fn lemma_value_all_max(s: Seq<usize>)
    requires
        forall|j: int| 0 <= j < s.len() ==> s[j] == 2047,
    ensures
        value_of(s) + 1 == space(s.len()),
    decreases s.len(),
{
    if s.len() > 0 {
        lemma_value_all_max(s.drop_first());
    }
}

/// A run of zero digits stands for zero.
proof fn lemma_value_all_zero(s: Seq<usize>)
    requires
        forall|j: int| 0 <= j < s.len() ==> s[j] == 0,
    ensures
        value_of(s) == 0,
    decreases s.len(),
{
    if s.len() > 0 {
        lemma_value_all_zero(s.drop_first());
    }
}

/// Counting in base 2048 over vectors of `k` digits visits every vector exactly
/// once: each valid vector stands for a distinct number below `2048^k`, and each
/// such number is the value of exactly one valid vector.
pub proof fn odometer_enumerates(k: nat)
    requires
        1 <= k <= 11,
    ensures
        forall|d: Seq<usize>|
            d.len() == k && digits_valid(d) ==> #[trigger] value_of(d) < space(k)
                && digits_of(value_of(d), k) == d,
        forall|n: nat|
            n < space(k) ==> (#[trigger] digits_of(n, k)).len() == k && digits_valid(
                digits_of(n, k),
            ) && value_of(digits_of(n, k)) == n,
        forall|d1: Seq<usize>, d2: Seq<usize>|
            d1.len() == k && d2.len() == k && digits_valid(d1) && digits_valid(d2) && #[trigger] value_of(d1)
                == #[trigger] value_of(d2) ==> d1 == d2,
{
    assert forall|d: Seq<usize>| d.len() == k && digits_valid(d) implies #[trigger] value_of(d)
        < space(k) && digits_of(value_of(d), k) == d by {
        lemma_value_bound(d);
        lemma_value_of_digits(d);
    }
    assert forall|n: nat| n < space(k) implies (#[trigger] digits_of(n, k)).len() == k
        && digits_valid(digits_of(n, k)) && value_of(digits_of(n, k)) == n by {
        lemma_digits_of_value(n, k);
    }
    assert forall|d1: Seq<usize>, d2: Seq<usize>|
        d1.len() == k && d2.len() == k && digits_valid(d1) && digits_valid(d2) && #[trigger] value_of(d1)
            == #[trigger] value_of(d2) implies d1 == d2 by {
        lemma_value_of_digits(d1);
        lemma_value_of_digits(d2);
    }
}

/// A position in the search space: one word index per missing word.
pub struct Odometer {
    digits: Vec<usize>,
}

impl View for Odometer {
    type V = Seq<usize>;

    closed spec fn view(&self) -> Seq<usize> {
        self.digits@
    }
}

impl Odometer {
    pub open spec fn wf(&self) -> bool {
        self@.len() >= 1 && digits_valid(self@)
    }

    /// The number this position stands for.
    pub open spec fn value(&self) -> nat {
        value_of(self@)
    }

    /// The outer (most significant) digit.
    pub open spec fn outer_spec(&self) -> usize {
        self@[self@.len() - 1]
    }

    /// A position of `k` digits whose outer digit is `start` and all others zero.
    pub fn new(k: usize, start: usize) -> (r: Odometer)
        requires
            1 <= k,
            start < RADIX,
        ensures
            r.wf(),
            r@.len() == k,
            r.outer_spec() == start,
            r.value() == start as nat * space((k - 1) as nat),
    {
        let mut digits: Vec<usize> = Vec::new();
        let mut i: usize = 0;
        while i + 1 < k
            invariant
                i < k,
                digits@.len() == i,
                forall|j: int| 0 <= j < i ==> digits@[j] == 0,
            decreases k - i,
        {
            digits.push(0);
            i = i + 1;
        }
        digits.push(start);
        let r = Odometer { digits };
        proof {
            let s = r@;
            lemma_value_split(s, (k - 1) as int);
            assert forall|j: int| 0 <= j < k - 1 implies #[trigger] s.take((k - 1) as int)[j] == 0 by {
                assert(s[j] == digits@[j]);
            }
            lemma_value_all_zero(s.take((k - 1) as int));
            let one = s.skip((k - 1) as int);
            assert(one.len() == 1 && one[0] == start);
            assert(one.drop_first() =~= Seq::<usize>::empty());
            assert(value_of(Seq::<usize>::empty()) == 0);
            assert(value_of(one) == start as nat);
            let sp = space((k - 1) as nat);
            assert(sp * (start as nat) == (start as nat) * sp) by (nonlinear_arith);
        }
        r
    }

    /// The current digits, least significant first.
    pub fn digits(&self) -> (r: &Vec<usize>)
        ensures
            r@ == self@,
    {
        &self.digits
    }

    /// The outer (most significant) digit.
    pub fn outer(&self) -> (r: usize)
        requires
            self.wf(),
        ensures
            r == self.outer_spec(),
    {
        self.digits[self.digits.len() - 1]
    }

    /// Steps to the next position. Returns `true` when the count wrapped
    /// around past the last position back to all zeros.
    pub fn advance(&mut self) -> (wrapped: bool)
        requires
            old(self).wf(),
        ensures
            final(self).wf(),
            final(self)@.len() == old(self)@.len(),
            wrapped == (old(self).value() + 1 == space(old(self)@.len())),
            !wrapped ==> final(self).value() == old(self).value() + 1,
            wrapped ==> final(self).value() == 0,
    {
        let n = self.digits.len();
        let ghost o = self@;
        let mut i: usize = 0;
        while i < n && self.digits[i] == RADIX - 1
            invariant
                i <= n,
                n == o.len(),
                self@.len() == n,
                digits_valid(self@),
                forall|j: int| 0 <= j < i ==> o[j] == 2047 && self@[j] == 0,
                forall|j: int| i <= j < n ==> self@[j] == o[j],
            decreases n - i,
        {
            self.digits.set(i, 0);
            i = i + 1;
        }
        proof {
            lemma_value_split(o, i as int);
            lemma_value_all_max(o.take(i as int));
            lemma_value_bound(o.skip(i as int));
            lemma_space_positive(i as nat);
        }
        if i < n {
            let d = self.digits[i];
            let ghost before = self@;
            self.digits.set(i, d + 1);
            proof {
                let s = self@;
                lemma_value_split(s, i as int);
                assert forall|j: int| 0 <= j < i implies #[trigger] s.take(i as int)[j] == 0 by {
                    assert(o[j] == 2047);
                    assert(before[j] == 0);
                    assert(s[j] == before[j]);
                }
                lemma_value_all_zero(s.take(i as int));
                let ot = o.skip(i as int);
                let st = s.skip(i as int);
                assert(st.drop_first() =~= ot.drop_first());
                let p = space(i as nat);
                let b = value_of(ot);
                lemma_value_bound(ot.drop_first());
                let u = value_of(ot.drop_first());
                let q = space((ot.len() - 1) as nat);
                assert(ot[0] as nat + 2048 * u + 1 < 2048 * q) by (nonlinear_arith)
                    requires
                        ot[0] < 2047,
                        u < q,
                ;
                lemma_space_split(i as nat, ot.len());
                assert(i as nat + ot.len() == n);
                assert(p * (b + 1) < p * space(ot.len())) by (nonlinear_arith)
                    requires
                        b + 1 < space(ot.len()),
                        p >= 1,
                ;
                assert(p * (b + 1) == p * b + p) by (nonlinear_arith);
            }
            false
        } else {
            proof {
                assert(o.take(n as int) =~= o);
                assert(o.skip(n as int) =~= Seq::<usize>::empty());
                assert forall|j: int| 0 <= j < n implies #[trigger] self@[j] == 0 by {
                    assert(o[j] == 2047);
                }
                lemma_value_all_zero(self@);
            }
            true
        }
    }
}

/// One more digit multiplies the count of vectors by 2048.
pub proof fn lemma_space_step(k: nat)
    requires
        k >= 1,
    ensures
        space(k) == 2048 * space((k - 1) as nat),
{
}

/// `2048^(a + b) == 2048^a * 2048^b`.
proof fn lemma_space_split(a: nat, b: nat)
    ensures
        space(a + b) == space(a) * space(b),
    decreases a,
{
    if a > 0 {
        lemma_space_split((a - 1) as nat, b);
        assert((a - 1) as nat + b == (a + b - 1) as nat);
        let x = space((a - 1) as nat);
        let y = space(b);
        assert(space(a + b) == 2048 * space((a + b - 1) as nat));
        assert(space(a) == 2048 * x);
        assert(space((a - 1) as nat + b) == x * y);
        assert(2048 * (x * y) == (2048 * x) * y) by (nonlinear_arith);
        assert(space(a + b) == space(a) * space(b));
    } else {
        assert(space(0) == 1);
        assert(a + b == b);
    }
}

} // verus!
