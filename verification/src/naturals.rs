//! Natural numbers of any size, held by their decimal digits.

use vstd::arithmetic::div_mod::*;
use vstd::arithmetic::power2::*;
use vstd::prelude::*;

verus! {

/// Ten to the power `e`.
pub open spec fn pow10(e: nat) -> nat
    decreases e,
{
    if e == 0 {
        1
    } else {
        10 * pow10((e - 1) as nat)
    }
}

/// Whether all of `v` are decimal digits.
pub open spec fn digits(v: Seq<u8>) -> bool {
    forall|i: int| 0 <= i < v.len() ==> #[trigger] v[i] < 10
}

/// The number whose decimal digits are `v`, the least significant one first.
pub open spec fn digits_value(v: Seq<u8>) -> nat
    decreases v.len(),
{
    if v.len() == 0 {
        0
    } else {
        v[0] as nat + 10 * digits_value(v.drop_first())
    }
}

/// Whether `v` has a digit, and no zero in front of other digits.
pub open spec fn canonical(v: Seq<u8>) -> bool {
    v.len() > 0 && (v.last() > 0 || v.len() == 1)
}

pub proof fn lemma_pow10_positive(e: nat)
    ensures
        pow10(e) > 0,
    decreases e,
{
    if e > 0 {
        lemma_pow10_positive((e - 1) as nat);
    }
}

/// Powers of ten multiply by adding exponents.
pub proof fn lemma_pow10_adds(a: nat, b: nat)
    ensures
        pow10(a + b) == pow10(a) * pow10(b),
    decreases a,
{
    if a == 0 {
        assert(1 * pow10(b) == pow10(b));
    } else {
        lemma_pow10_adds((a - 1) as nat, b);
        let h = pow10((a - 1) as nat);
        assert(10 * (h * pow10(b)) == (10 * h) * pow10(b)) by (nonlinear_arith);
    }
}

/// A power of ten lies between powers of eight and of sixteen.
pub proof fn lemma_pow10_range(e: nat)
    ensures
        pow2(3 * e) <= pow10(e) <= pow2(4 * e),
    decreases e,
{
    lemma2_to64();
    if e > 0 {
        let d = (e - 1) as nat;
        lemma_pow10_range(d);
        lemma_pow2_adds(3 * d, 3);
        lemma_pow2_adds(4 * d, 4);
    }
}

/// Without the lowest digit there are still digits only.
pub proof fn lemma_digits_rest(v: Seq<u8>)
    requires
        digits(v),
        v.len() > 0,
    ensures
        digits(v.drop_first()),
{
    let rest = v.drop_first();
    assert forall|i: int| 0 <= i < rest.len() implies #[trigger] rest[i] < 10 by {
        assert(rest[i] == v[i + 1]);
    }
}

/// A number is less than the power of ten of as many places as it has digits.
pub proof fn lemma_digits_bound(v: Seq<u8>)
    requires
        digits(v),
    ensures
        digits_value(v) < pow10(v.len()),
    decreases v.len(),
{
    if v.len() > 0 {
        let rest = v.drop_first();
        lemma_digits_rest(v);
        lemma_digits_bound(rest);
        assert(v[0] < 10);
    }
}

/// A number is at least the power of ten of the place of its top digit.
pub proof fn lemma_digits_least(v: Seq<u8>)
    requires
        v.len() > 0,
        v.last() > 0,
    ensures
        digits_value(v) >= pow10((v.len() - 1) as nat),
    decreases v.len(),
{
    let rest = v.drop_first();
    if v.len() > 1 {
        assert(rest.last() == v.last());
        lemma_digits_least(rest);
    } else {
        assert(v.last() == v[0]);
    }
}

/// The digits from place `d` on are those of the quotient by `10^d`.
pub proof fn lemma_digits_split(v: Seq<u8>, d: nat)
    requires
        digits(v),
        d <= v.len(),
    ensures
        digits_value(v) / pow10(d) == digits_value(v.skip(d as int)),
        digits_value(v) % pow10(d) == digits_value(v.take(d as int)),
    decreases d,
{
    lemma_digits_sum(v, d);
    assert(digits(v.take(d as int)));
    lemma_digits_bound(v.take(d as int));
    lemma_fundamental_div_mod_converse(
        digits_value(v) as int,
        pow10(d) as int,
        digits_value(v.skip(d as int)) as int,
        digits_value(v.take(d as int)) as int,
    );
}

pub proof fn lemma_digits_sum(v: Seq<u8>, d: nat)
    requires
        d <= v.len(),
    ensures
        digits_value(v) == digits_value(v.skip(d as int)) * pow10(d) + digits_value(
            v.take(d as int),
        ),
        pow10(d) > 0,
    decreases d,
{
    lemma_pow10_positive(d);
    if d == 0 {
        assert(v.skip(0) =~= v);
        assert(v.take(0) =~= Seq::<u8>::empty());
    } else {
        let rest = v.drop_first();
        let e = (d - 1) as nat;
        lemma_digits_sum(rest, e);
        assert(rest.skip(e as int) =~= v.skip(d as int));
        assert(v.take(d as int).drop_first() =~= rest.take(e as int));
        assert(v.take(d as int)[0] == v[0]);
        let high = digits_value(v.skip(d as int));
        assert(10 * (high * pow10(e)) == high * pow10(d)) by (nonlinear_arith)
            requires
                pow10(d) == 10 * pow10(e),
        ;
    }
}

/// The decimal digits of `n`, the least significant one first.
pub(crate) fn digits_of(n: u128) -> (v: Vec<u8>)
    ensures
        digits(v@),
        canonical(v@),
        digits_value(v@) == n,
    decreases n,
{
    if n < 10 {
        let mut v: Vec<u8> = Vec::new();
        v.push(n as u8);
        proof {
            assert(v@.drop_first() =~= Seq::<u8>::empty());
            assert(digits_value(v@.drop_first()) == 0);
        }
        v
    } else {
        let high = digits_of(n / 10);
        let low: u8 = (n % 10) as u8;
        let v = prepend(low, &high);
        proof {
            assert(v@.drop_first() =~= high@);
            assert(v@.last() == high@.last());
            if high@.len() == 1 {
                assert(high@.drop_first() =~= Seq::<u8>::empty());
                assert(digits_value(high@.drop_first()) == 0);
                assert(high@.last() == high@[0]);
            }
        }
        v
    }
}

/// `v` with a digit `low` below it.
pub(crate) fn prepend(low: u8, v: &Vec<u8>) -> (r: Vec<u8>)
    ensures
        r@ == seq![low] + v@,
{
    let mut r: Vec<u8> = Vec::new();
    r.push(low);
    let mut i: usize = 0;
    while i < v.len()
        invariant
            i <= v.len(),
            r@ == seq![low] + v@.take(i as int),
        decreases v.len() - i,
    {
        r.push(v[i]);
        proof {
            assert(v@.take(i + 1) =~= v@.take(i as int).push(v@[i as int]));
            assert(r@ =~= seq![low] + v@.take(i + 1));
        }
        i = i + 1;
    }
    proof {
        assert(v@.take(v@.len() as int) =~= v@);
    }
    r
}

/// The value of digits followed by one more significant digit.
pub proof fn lemma_digits_push(v: Seq<u8>, d: u8)
    ensures
        digits_value(v.push(d)) == digits_value(v) + d * pow10(v.len()),
    decreases v.len(),
{
    let w = v.push(d);
    if v.len() == 0 {
        assert(w.drop_first() =~= Seq::<u8>::empty());
        assert(digits_value(w.drop_first()) == 0);
        assert(pow10(0) == 1);
        assert(d * 1 == d);
    } else {
        assert(w[0] == v[0]);
        lemma_digits_push(v.drop_first(), d);
        assert(w.drop_first() =~= v.drop_first().push(d));
        let e = (v.len() - 1) as nat;
        assert(10 * (d * pow10(e)) == d * pow10(v.len())) by (nonlinear_arith)
            requires
                pow10(v.len()) == 10 * pow10(e),
        ;
    }
}

/// The digits of twice the number.
pub(crate) fn doubled(v: &Vec<u8>) -> (r: Vec<u8>)
    requires
        digits(v@),
        canonical(v@),
    ensures
        digits(r@),
        canonical(r@),
        digits_value(r@) == 2 * digits_value(v@),
{
    let mut r: Vec<u8> = Vec::new();
    let mut carry: u8 = 0;
    let mut i: usize = 0;
    proof {
        assert(v@.take(0) =~= Seq::<u8>::empty());
    }
    while i < v.len()
        invariant
            i <= v.len(),
            r@.len() == i,
            carry <= 1,
            digits(v@),
            digits(r@),
            digits_value(r@) + carry * pow10(i as nat) == 2 * digits_value(v@.take(i as int)),
            i > 0 && v@[i - 1] > 0 ==> carry > 0 || r@[i - 1] > 0,
        decreases v.len() - i,
    {
        let x: u8 = v[i];
        proof {
            assert(v@[i as int] < 10);
            assert(v@.take(i + 1) =~= v@.take(i as int).push(x));
            lemma_digits_push(v@.take(i as int), x);
        }
        let t: u8 = 2 * x + carry;
        let low: u8 = t % 10;
        proof {
            lemma_digits_push(r@, low);
            let w = pow10(i as nat);
            assert(pow10((i + 1) as nat) == 10 * w);
            assert(low * w + (t / 10) * (10 * w) == t * w) by (nonlinear_arith)
                requires
                    t == 10 * (t / 10) + low,
            ;
            assert(t * w == 2 * (x * w) + carry * w) by (nonlinear_arith)
                requires
                    t == 2 * x + carry,
            ;
        }
        r.push(low);
        carry = t / 10;
        i = i + 1;
    }
    proof {
        assert(v@.take(v@.len() as int) =~= v@);
    }
    if carry > 0 {
        proof {
            lemma_digits_push(r@, carry);
        }
        r.push(carry);
    }
    r
}

/// The top digit of a positive number is not zero.
pub proof fn lemma_top_digit(v: Seq<u8>)
    requires
        canonical(v),
        digits_value(v) > 0,
    ensures
        v.last() > 0,
{
    if v.len() == 1 {
        assert(v.drop_first() =~= Seq::<u8>::empty());
        assert(digits_value(v.drop_first()) == 0);
    }
}

/// The digits of half the number, and whether it was odd.
pub(crate) fn halved(v: &Vec<u8>) -> (r: (Vec<u8>, bool))
    requires
        digits(v@),
        canonical(v@),
    ensures
        digits(r.0@),
        canonical(r.0@),
        digits_value(r.0@) == digits_value(v@) / 2,
        r.1 == (digits_value(v@) % 2 == 1),
{
    let n = v.len();
    let odd = v[0] % 2 == 1;
    let mut half: Vec<u8> = Vec::new();
    let mut i: usize = 0;
    proof {
        assert(v@.take(0) =~= Seq::<u8>::empty());
        assert(pow10(0) == 1);
        assert(v@[0] < 10);
    }
    while i < n
        invariant
            n == v@.len(),
            i <= n,
            half@.len() == i,
            digits(v@),
            digits(half@),
            2 * digits_value(half@) + v@[0] % 2 == digits_value(v@.take(i as int)) + (if i < n {
                (v@[i as int] % 2) * pow10(i as nat)
            } else {
                0
            }),
            forall|j: int|
                0 <= j < i ==> #[trigger] half@[j] == v@[j] / 2 + (if j + 1 < n && v@[j + 1] % 2
                    == 1 {
                    5int
                } else {
                    0int
                }),
        decreases n - i,
    {
        let x: u8 = v[i];
        let up: u8 = if i + 1 < n && v[i + 1] % 2 == 1 {
            5
        } else {
            0
        };
        proof {
            assert(v@[i as int] < 10);
            assert(v@.take(i + 1) =~= v@.take(i as int).push(x));
            lemma_digits_push(v@.take(i as int), x);
            let y: u8 = (x / 2 + up) as u8;
            lemma_digits_push(half@, y);
            let w = pow10(i as nat);
            assert(pow10((i + 1) as nat) == 10 * w);
            assert(2 * (y * w) + (x % 2) * w == x * w + (2 * up) * w) by (nonlinear_arith)
                requires
                    2 * y + x % 2 == x + 2 * up,
            ;
            if up == 5 {
                assert((2 * up) * w == 1 * (10 * w));
            } else {
                assert((2 * up) * w == 0);
                assert(0 * (10 * w) == 0);
            }
        }
        half.push(x / 2 + up);
        i = i + 1;
    }
    proof {
        assert(v@.take(n as int) =~= v@);
    }
    if n > 1 && half[n - 1] == 0 {
        let ghost before = half@;
        half.pop();
        proof {
            assert(v@[n - 1] % 2 == 1);
            assert(half@[n - 2] == v@[n - 2] / 2 + 5);
            assert(before =~= half@.push(0));
            lemma_digits_push(half@, 0);
            assert(0 * pow10(half@.len()) == 0) by (nonlinear_arith);
        }
    }
    (half, odd)
}

} // verus!
