//! Arithmetic on vectors of digits, most significant digit first.

use crate::carry_add::CappedAdd;
use crate::places::{
    canonical, fitted, in_range, lemma_canonical_unique, lemma_fitted_unique, lemma_value_concat,
    lemma_value_lex, lemma_value_padded, lemma_value_prepend, lemma_value_push,
    lemma_value_single, lemma_value_zero, lemma_value_zeros, low, padded, value, zeros,
};
use vstd::arithmetic::power::{lemma_pow0, lemma_pow1, lemma_pow_adds, pow};
use vstd::prelude::*;

verus! {

/// The digits in the opposite order.
pub(crate) fn reversed(v: &Vec<u64>) -> (r: Vec<u64>)
    ensures
        r@ == v@.reverse(),
{
    let mut r: Vec<u64> = Vec::new();
    let n = v.len();
    let mut i: usize = 0;
    while i < n
        invariant
            n == v@.len(),
            i <= n,
            r@.len() == i,
            forall|j: int| 0 <= j < i ==> r@[j] == v@[n - 1 - j],
        decreases n - i,
    {
        r.push(v[n - 1 - i]);
        i += 1;
    }
    assert(r@ =~= v@.reverse());
    r
}

/// The sum of two numbers, with as many digits as the longer of the two has,
/// and one more where the sum needs it.
pub(crate) fn add_places(a: &Vec<u64>, b: &Vec<u64>, base: u64) -> (r: Vec<u64>)
    requires
        1 <= base <= 255,
        a@.len() >= 1,
        b@.len() >= 1,
        in_range(base as nat, a@),
        in_range(base as nat, b@),
    ensures
        r@ == fitted(
            base as nat,
            value(base as nat, a@) + value(base as nat, b@),
            if a@.len() >= b@.len() {
                a@.len()
            } else {
                b@.len()
            },
        ),
        r@.len() >= 1,
        in_range(base as nat, r@),
        value(base as nat, r@) == value(base as nat, a@) + value(base as nat, b@),
{
    let la = a.len();
    let lb = b.len();
    let longer = if la >= lb {
        la
    } else {
        lb
    };
    let ghost bn = base as nat;
    let mut result: Vec<u64> = Vec::new();
    let mut carry: u64 = 0;
    let mut i: usize = 0;
    proof {
        lemma_pow0(base as int);
        assert(low(a@, 0) =~= Seq::<u64>::empty());
        assert(low(b@, 0) =~= Seq::<u64>::empty());
        assert(result@.reverse() =~= Seq::<u64>::empty());
    }
    while i < longer
        invariant
            1 <= base <= 255,
            bn == base as nat,
            la == a@.len(),
            lb == b@.len(),
            la >= 1,
            lb >= 1,
            longer == (if la >= lb {
                la
            } else {
                lb
            }),
            in_range(bn, a@),
            in_range(bn, b@),
            in_range(bn, result@),
            result@.len() == i,
            i <= longer,
            carry <= 1,
            base == 1 ==> carry == 0,
            value(bn, result@.reverse()) + carry * pow(base as int, i as nat) == value(
                bn,
                low(a@, i as nat),
            ) + value(bn, low(b@, i as nat)),
        decreases longer - i,
    {
        let da: u64 = if i < la {
            a[la - 1 - i]
        } else {
            0
        };
        let db: u64 = if i < lb {
            b[lb - 1 - i]
        } else {
            0
        };
        let cr = carry.capped_add(da + db, (0, base));
        let digit = cr.sign_num.num;
        let next_carry: u64 = match cr.carry {
            Some(c) => c.num,
            None => 0,
        };
        proof {
            let p = pow(base as int, i as nat);
            let sum = (carry + da + db) as int;
            assert(sum == digit + next_carry * base) by {
                vstd::arithmetic::div_mod::lemma_fundamental_div_mod(sum, base as int);
                assert(base * (sum / (base as int)) == (sum / (base as int)) * base)
                    by (nonlinear_arith);
            }
            assert(next_carry <= 1) by {
                if next_carry >= 2 {
                    assert(next_carry * base >= 2 * base) by (nonlinear_arith)
                        requires
                            next_carry >= 2,
                            base >= 1,
                    ;
                }
            }
            if base == 1 {
                assert(da == 0 && db == 0);
            }
            lemma_pow1(base as int);
            lemma_pow_adds(base as int, i as nat, 1);
            assert(pow(base as int, (i + 1) as nat) == p * base);
            // the digits taken in
            if i < la {
                assert(low(a@, (i + 1) as nat) =~= seq![da] + low(a@, i as nat));
                lemma_value_prepend(bn, da, low(a@, i as nat));
            } else {
                assert(low(a@, (i + 1) as nat) =~= low(a@, i as nat));
            }
            if i < lb {
                assert(low(b@, (i + 1) as nat) =~= seq![db] + low(b@, i as nat));
                lemma_value_prepend(bn, db, low(b@, i as nat));
            } else {
                assert(low(b@, (i + 1) as nat) =~= low(b@, i as nat));
            }
            assert(value(bn, low(a@, (i + 1) as nat)) == da * p + value(bn, low(a@, i as nat)));
            assert(value(bn, low(b@, (i + 1) as nat)) == db * p + value(bn, low(b@, i as nat)));
            // the digit put out
            assert(result@.push(digit).reverse() =~= seq![digit] + result@.reverse());
            lemma_value_prepend(bn, digit, result@.reverse());
            assert(digit * p + next_carry * (p * base) == (carry + da + db) * p)
                by (nonlinear_arith)
                requires
                    carry + da + db == digit + next_carry * base,
            ;
            assert((carry + da + db) * p == carry * p + da * p + db * p) by (nonlinear_arith);
        }
        result.push(digit);
        carry = next_carry;
        i += 1;
    }
    proof {
        assert(low(a@, i as nat) =~= a@);
        assert(low(b@, i as nat) =~= b@);
    }
    if carry != 0 {
        proof {
            assert(result@.push(carry).reverse() =~= seq![carry] + result@.reverse());
            lemma_value_prepend(bn, carry, result@.reverse());
        }
        result.push(carry);
    } else {
        assert(carry * pow(base as int, i as nat) == 0) by (nonlinear_arith)
            requires
                carry == 0,
        ;
    }
    let r = reversed(&result);
    proof {
        assert(in_range(bn, r@)) by {
            assert forall|j: int| 0 <= j < r@.len() implies (#[trigger] r@[j]) < bn by {
                assert(r@[j] == result@[result@.len() - 1 - j]);
            }
        }
        if r@.len() == longer {
            lemma_fitted_unique(bn, r@);
        } else {
            assert(r@[0] == result@.last());
            lemma_canonical_unique(bn, r@);
        }
    }
    r
}

/// The digits with zeros put in front until there are at least `n` of them.
pub(crate) fn pad_to(v: &Vec<u64>, n: usize) -> (r: Vec<u64>)
    ensures
        r@ == padded(v@, n as nat),
{
    let mut r: Vec<u64> = Vec::new();
    let len = v.len();
    if len < n {
        let fill = n - len;
        let mut i: usize = 0;
        while i < fill
            invariant
                i <= fill,
                r@ == zeros(i as nat),
            decreases fill - i,
        {
            r.push(0);
            assert(r@ =~= zeros((i + 1) as nat));
            i += 1;
        }
    }
    let ghost front = r@;
    let mut j: usize = 0;
    while j < len
        invariant
            len == v@.len(),
            j <= len,
            r@ == front + v@.take(j as int),
        decreases len - j,
    {
        r.push(v[j]);
        assert(r@ =~= front + v@.take(j + 1));
        j += 1;
    }
    assert(v@.take(len as int) =~= v@);
    assert(Seq::<u64>::empty() + v@ =~= v@);
    r
}

/// The same number with exactly `n` digits where that many suffice, and with
/// no leading zero where it needs more.
pub(crate) fn fit(v: &Vec<u64>, n: usize, base: u64) -> (r: Vec<u64>)
    requires
        1 <= base,
        n >= 1,
        v@.len() >= 1,
        in_range(base as nat, v@),
    ensures
        r@ == fitted(base as nat, value(base as nat, v@), n as nat),
        r@.len() >= 1,
        in_range(base as nat, r@),
        value(base as nat, r@) == value(base as nat, v@),
{
    let ghost bn = base as nat;
    let len = v.len();
    if len < n {
        let r = pad_to(v, n);
        proof {
            crate::places::lemma_value_padded(bn, v@, n as nat);
            lemma_fitted_unique(bn, r@);
        }
        return r;
    }
    let mut k: usize = 0;
    while len - k > n && v[k] == 0
        invariant
            len == v@.len(),
            n >= 1,
            k <= len - n,
            forall|j: int| 0 <= j < k ==> v@[j] == 0,
        decreases len - k,
    {
        k += 1;
    }
    let mut r: Vec<u64> = Vec::new();
    let mut j: usize = k;
    while j < len
        invariant
            len == v@.len(),
            k <= j <= len,
            r@ == v@.subrange(k as int, j as int),
        decreases len - j,
    {
        r.push(v[j]);
        assert(r@ =~= v@.subrange(k as int, j + 1));
        j += 1;
    }
    proof {
        assert(v@ =~= zeros(k as nat) + r@);
        lemma_value_concat(bn, zeros(k as nat), r@);
        lemma_value_zeros(bn, k as nat);
        assert(0 * pow(base as int, r@.len()) == 0);
        assert(in_range(bn, r@)) by {
            assert forall|j: int| 0 <= j < r@.len() implies (#[trigger] r@[j]) < bn by {
                assert(r@[j] == v@[k + j]);
            }
        }
        if r@.len() == n {
            lemma_fitted_unique(bn, r@);
        } else {
            assert(r@[0] == v@[k as int]);
            lemma_canonical_unique(bn, r@);
        }
    }
    r
}

/// One less than the number, with as many digits as before; zero stays zero.
pub(crate) fn pred_places(v: &Vec<u64>, base: u64) -> (r: Vec<u64>)
    requires
        1 <= base,
        v@.len() >= 1,
        in_range(base as nat, v@),
    ensures
        r@ == (if value(base as nat, v@) == 0 {
            v@
        } else {
            fitted(base as nat, (value(base as nat, v@) - 1) as nat, v@.len())
        }),
        r@.len() == v@.len(),
        in_range(base as nat, r@),
{
    let ghost bn = base as nat;
    let n = v.len();
    let mut result: Vec<u64> = Vec::new();
    let mut borrow = true;
    let mut i: usize = 0;
    proof {
        lemma_pow0(base as int);
        assert(low(v@, 0) =~= Seq::<u64>::empty());
        assert(result@.reverse() =~= Seq::<u64>::empty());
    }
    while i < n
        invariant
            1 <= base,
            bn == base as nat,
            n == v@.len(),
            i <= n,
            in_range(bn, v@),
            in_range(bn, result@),
            result@.len() == i,
            borrow ==> forall|j: int| n - i <= j < n ==> v@[j] == 0,
            value(bn, result@.reverse()) + 1 == value(bn, low(v@, i as nat)) + (if borrow {
                pow(base as int, i as nat)
            } else {
                0
            }),
        decreases n - i,
    {
        let d = v[n - 1 - i];
        let digit: u64 = if borrow {
            if d == 0 {
                base - 1
            } else {
                d - 1
            }
        } else {
            d
        };
        let next_borrow = borrow && d == 0;
        proof {
            let p = pow(base as int, i as nat);
            lemma_pow1(base as int);
            lemma_pow_adds(base as int, i as nat, 1);
            assert(pow(base as int, (i + 1) as nat) == p * base);
            assert(low(v@, (i + 1) as nat) =~= seq![d] + low(v@, i as nat));
            lemma_value_prepend(bn, d, low(v@, i as nat));
            assert(result@.push(digit).reverse() =~= seq![digit] + result@.reverse());
            lemma_value_prepend(bn, digit, result@.reverse());
            if borrow {
                if d == 0 {
                    assert((base - 1) * p + p == p * base) by (nonlinear_arith);
                    assert(d * p == 0) by (nonlinear_arith)
                        requires
                            d == 0,
                    ;
                } else {
                    assert((d - 1) * p + p == d * p) by (nonlinear_arith);
                }
            }
        }
        result.push(digit);
        borrow = next_borrow;
        i += 1;
    }
    if borrow {
        proof {
            assert(v@ =~= zeros(n as nat));
            crate::places::lemma_value_zero(bn, v@);
        }
        return crate::digits::copy_of(v);
    }
    let r = reversed(&result);
    proof {
        assert(low(v@, i as nat) =~= v@);
        assert(in_range(bn, r@)) by {
            assert forall|j: int| 0 <= j < r@.len() implies (#[trigger] r@[j]) < bn by {
                assert(r@[j] == result@[result@.len() - 1 - j]);
            }
        }
        lemma_fitted_unique(bn, r@);
    }
    r
}

/// The number times `m` plus `h`, in some string of digits.
pub(crate) fn scale_add(a: &Vec<u64>, m: u64, h: u64, base: u64) -> (r: Vec<u64>)
    requires
        1 <= base <= 255,
        m <= 255,
        h <= 255,
        base >= 2 || h == 0,
        a@.len() >= 1,
        in_range(base as nat, a@),
    ensures
        r@.len() >= 1,
        in_range(base as nat, r@),
        value(base as nat, r@) == value(base as nat, a@) * m + h,
{
    let ghost bn = base as nat;
    let n = a.len();
    let top: u64 = if m >= h {
        m
    } else {
        h
    };
    let mut result: Vec<u64> = Vec::new();
    let mut carry: u64 = h;
    let mut i: usize = 0;
    proof {
        lemma_pow0(base as int);
        assert(low(a@, 0) =~= Seq::<u64>::empty());
        assert(result@.reverse() =~= Seq::<u64>::empty());
        assert(0 * m == 0);
    }
    while i < n
        invariant
            1 <= base <= 255,
            bn == base as nat,
            m <= 255,
            h <= 255,
            top <= 255,
            m <= top,
            n == a@.len(),
            n >= 1,
            i <= n,
            in_range(bn, a@),
            in_range(bn, result@),
            result@.len() == i,
            carry <= top,
            base == 1 ==> carry == 0,
            value(bn, result@.reverse()) + carry * pow(base as int, i as nat) == value(
                bn,
                low(a@, i as nat),
            ) * m + h,
        decreases n - i,
    {
        let d = a[n - 1 - i];
        assert(d * m <= 255 * 255) by (nonlinear_arith)
            requires
                d <= 255,
                m <= 255,
        ;
        let prod: u64 = d * m + carry;
        let digit: u64 = prod % base;
        let next_carry: u64 = prod / base;
        proof {
            let p = pow(base as int, i as nat);
            vstd::arithmetic::div_mod::lemma_fundamental_div_mod(prod as int, base as int);
            assert(base * (prod / base) == (prod / base) * base) by (nonlinear_arith);
            assert(prod == digit + next_carry * base);
            assert(d * m <= (base - 1) * top) by (nonlinear_arith)
                requires
                    d <= base - 1,
                    m <= top,
                    0 <= d,
                    0 <= m,
            ;
            assert(next_carry <= top) by {
                if next_carry > top {
                    assert(next_carry * base >= (top + 1) * base) by (nonlinear_arith)
                        requires
                            next_carry >= top + 1,
                            base >= 1,
                    ;
                    assert((top + 1) * base == (base - 1) * top + top + base)
                        by (nonlinear_arith);
                }
            }
            if base == 1 {
                assert(d == 0);
                assert(d * m == 0) by (nonlinear_arith)
                    requires
                        d == 0,
                ;
            }
            lemma_pow1(base as int);
            lemma_pow_adds(base as int, i as nat, 1);
            assert(pow(base as int, (i + 1) as nat) == p * base);
            assert(low(a@, (i + 1) as nat) =~= seq![d] + low(a@, i as nat));
            lemma_value_prepend(bn, d, low(a@, i as nat));
            assert(result@.push(digit).reverse() =~= seq![digit] + result@.reverse());
            lemma_value_prepend(bn, digit, result@.reverse());
            let lo = value(bn, low(a@, i as nat)) as int;
            assert(digit * p + next_carry * (p * base) == (d * m + carry) * p)
                by (nonlinear_arith)
                requires
                    d * m + carry == digit + next_carry * base,
            ;
            assert((d * p + lo) * m == (d * m) * p + lo * m) by (nonlinear_arith);
            assert((d * m + carry) * p == (d * m) * p + carry * p) by (nonlinear_arith);
        }
        result.push(digit);
        carry = next_carry;
        i += 1;
    }
    proof {
        assert(low(a@, i as nat) =~= a@);
    }
    let ghost total = value(bn, a@) * m + h;
    while carry != 0
        invariant
            1 <= base <= 255,
            bn == base as nat,
            in_range(bn, result@),
            result@.len() >= 1,
            base == 1 ==> carry == 0,
            value(bn, result@.reverse()) + carry * pow(base as int, result@.len()) == total,
        decreases carry,
    {
        let digit: u64 = carry % base;
        let next_carry: u64 = carry / base;
        proof {
            let p = pow(base as int, result@.len());
            vstd::arithmetic::div_mod::lemma_fundamental_div_mod(carry as int, base as int);
            assert(base * (carry / base) == (carry / base) * base) by (nonlinear_arith);
            vstd::arithmetic::div_mod::lemma_div_decreases(carry as int, base as int);
            lemma_pow1(base as int);
            lemma_pow_adds(base as int, result@.len(), 1);
            assert(pow(base as int, result@.len() + 1) == p * base);
            assert(result@.push(digit).reverse() =~= seq![digit] + result@.reverse());
            lemma_value_prepend(bn, digit, result@.reverse());
            assert(digit * p + next_carry * (p * base) == carry * p) by (nonlinear_arith)
                requires
                    carry == digit + next_carry * base,
            ;
        }
        result.push(digit);
        carry = next_carry;
    }
    let r = reversed(&result);
    proof {
        assert(carry * pow(base as int, result@.len()) == 0) by (nonlinear_arith)
            requires
                carry == 0,
        ;
        assert(in_range(bn, r@)) by {
            assert forall|j: int| 0 <= j < r@.len() implies (#[trigger] r@[j]) < bn by {
                assert(r@[j] == result@[result@.len() - 1 - j]);
            }
        }
    }
    r
}

/// The product of two numbers, without leading zeros.
pub(crate) fn mul_places(a: &Vec<u64>, b: &Vec<u64>, base: u64) -> (r: Vec<u64>)
    requires
        1 <= base <= 255,
        a@.len() >= 1,
        b@.len() >= 1,
        in_range(base as nat, a@),
        in_range(base as nat, b@),
    ensures
        r@ == canonical(base as nat, value(base as nat, a@) * value(base as nat, b@)),
        r@.len() >= 1,
        in_range(base as nat, r@),
        value(base as nat, r@) == value(base as nat, a@) * value(base as nat, b@),
{
    let ghost bn = base as nat;
    let ghost va = value(bn, a@) as int;
    let lb = b.len();
    let mut acc: Vec<u64> = Vec::new();
    acc.push(0);
    let mut shifted: Vec<u64> = crate::digits::copy_of(a);
    let mut i: usize = 0;
    proof {
        lemma_pow0(base as int);
        assert(low(b@, 0) =~= Seq::<u64>::empty());
        assert(acc@ =~= seq![0u64]);
        lemma_value_single(bn, 0u64);
        assert(va * 0 == 0);
        assert(va * 1 == va);
    }
    while i < lb
        invariant
            1 <= base <= 255,
            bn == base as nat,
            va == value(bn, a@),
            lb == b@.len(),
            i <= lb,
            in_range(bn, b@),
            in_range(bn, acc@),
            in_range(bn, shifted@),
            acc@.len() >= 1,
            shifted@.len() >= 1,
            value(bn, shifted@) == va * pow(base as int, i as nat),
            value(bn, acc@) == va * value(bn, low(b@, i as nat)),
        decreases lb - i,
    {
        let d = b[lb - 1 - i];
        let partial = scale_add(&shifted, d, 0, base);
        let sum = add_places(&acc, &partial, base);
        proof {
            let p = pow(base as int, i as nat);
            let lo = value(bn, low(b@, i as nat)) as int;
            lemma_pow1(base as int);
            lemma_pow_adds(base as int, i as nat, 1);
            assert(pow(base as int, (i + 1) as nat) == p * base);
            assert(low(b@, (i + 1) as nat) =~= seq![d] + low(b@, i as nat));
            lemma_value_prepend(bn, d, low(b@, i as nat));
            lemma_value_push(bn, shifted@, 0u64);
            assert(va * lo + (va * p) * d == va * (d * p + lo)) by (nonlinear_arith);
            assert((va * p) * base == va * (p * base)) by (nonlinear_arith);
        }
        acc = sum;
        shifted.push(0);
        i += 1;
    }
    proof {
        assert(low(b@, i as nat) =~= b@);
    }
    fit(&acc, 1, base)
}

/// The number that the digits stand for in one base, written in another base
/// without leading zeros. A base of one digit can hold zero only.
pub(crate) fn convert_places(src: &Vec<u64>, from_base: u64, to_base: u64) -> (r: Vec<u64>)
    requires
        1 <= from_base <= 255,
        1 <= to_base <= 255,
        src@.len() >= 1,
        in_range(from_base as nat, src@),
        to_base >= 2 || value(from_base as nat, src@) == 0,
    ensures
        r@ == canonical(to_base as nat, value(from_base as nat, src@)),
        r@.len() >= 1,
        in_range(to_base as nat, r@),
        value(to_base as nat, r@) == value(from_base as nat, src@),
{
    let ghost fb = from_base as nat;
    let ghost tb = to_base as nat;
    let n = src.len();
    let mut acc: Vec<u64> = Vec::new();
    acc.push(0);
    let mut i: usize = 0;
    proof {
        assert(acc@ =~= seq![0u64]);
        lemma_value_single(tb, 0u64);
        assert(src@.take(0) =~= Seq::<u64>::empty());
        lemma_value_zero(fb, src@);
    }
    while i < n
        invariant
            1 <= from_base <= 255,
            1 <= to_base <= 255,
            fb == from_base as nat,
            tb == to_base as nat,
            n == src@.len(),
            i <= n,
            in_range(fb, src@),
            to_base == 1 ==> src@ =~= zeros(src@.len()),
            in_range(tb, acc@),
            acc@.len() >= 1,
            value(tb, acc@) == value(fb, src@.take(i as int)),
        decreases n - i,
    {
        let h = src[i];
        proof {
            assert(src@.take(i + 1) =~= src@.take(i as int).push(h));
            lemma_value_push(fb, src@.take(i as int), h);
        }
        acc = scale_add(&acc, from_base, h, to_base);
        i += 1;
    }
    proof {
        assert(src@.take(n as int) =~= src@);
    }
    fit(&acc, 1, to_base)
}

/// How the first number stands to the second: -1 where it is less, 0 where
/// the two are equal, 1 where it is greater.
pub(crate) fn order_of_places(a: &Vec<u64>, b: &Vec<u64>, base: u64) -> (r: i8)
    requires
        1 <= base,
        in_range(base as nat, a@),
        in_range(base as nat, b@),
    ensures
        r == (if value(base as nat, a@) < value(base as nat, b@) {
            -1i8
        } else if value(base as nat, a@) == value(base as nat, b@) {
            0i8
        } else {
            1i8
        }),
{
    let ghost bn = base as nat;
    let longer = if a.len() >= b.len() {
        a.len()
    } else {
        b.len()
    };
    let x = pad_to(a, longer);
    let y = pad_to(b, longer);
    proof {
        lemma_value_padded(bn, a@, longer as nat);
        lemma_value_padded(bn, b@, longer as nat);
    }
    let mut k: usize = 0;
    while k < longer
        invariant
            1 <= base,
            bn == base as nat,
            x@.len() == longer,
            y@.len() == longer,
            k <= longer,
            in_range(bn, x@),
            in_range(bn, y@),
            value(bn, x@) == value(bn, a@),
            value(bn, y@) == value(bn, b@),
            x@.take(k as int) == y@.take(k as int),
        decreases longer - k,
    {
        if x[k] < y[k] {
            proof {
                lemma_value_lex(bn, x@, y@, k as int);
            }
            return -1;
        }
        if x[k] > y[k] {
            proof {
                lemma_value_lex(bn, y@, x@, k as int);
            }
            return 1;
        }
        assert(x@.take(k + 1) =~= x@.take(k as int).push(x@[k as int]));
        assert(y@.take(k + 1) =~= y@.take(k as int).push(y@[k as int]));
        k += 1;
    }
    assert(x@.take(longer as int) =~= x@);
    assert(y@.take(longer as int) =~= y@);
    0
}

} // verus!
