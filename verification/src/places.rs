//! Strings of place values and the numbers they stand for.
//!
//! A string of places is a `Seq<u64>`, most significant place first, as a
//! number is written. Everything here is specification and proof.

use vstd::arithmetic::div_mod::*;
use vstd::arithmetic::mul::*;
use vstd::arithmetic::power::*;
use vstd::prelude::*;

verus! {

/// Every place is a digit of the base.
pub open spec fn in_range(base: nat, s: Seq<u64>) -> bool {
    forall|i: int| 0 <= i < s.len() ==> (#[trigger] s[i]) < base
}

/// The number that a string of places stands for in a base.
pub open spec fn value(base: nat, s: Seq<u64>) -> nat
    decreases s.len(),
{
    if s.len() == 0 {
        0
    } else {
        value(base, s.drop_last()) * base + s.last() as nat
    }
}

/// The shortest string of places for a number: no leading zero place, and the
/// single place 0 for zero. A base of a single digit can hold zero only, and
/// there the string is the single place 0 for every number.
pub open spec fn canonical(base: nat, v: nat) -> Seq<u64>
    decreases v,
{
    if v < base {
        seq![v as u64]
    } else if base < 2 {
        seq![0u64]
    } else {
        proof {
            lemma_div_decreases(v as int, base as int);
            lemma_div_pos_is_pos(v as int, base as int);
        }
        canonical(base, v / base).push((v % base) as u64)
    }
}

/// A string of `n` zero places.
pub open spec fn zeros(n: nat) -> Seq<u64> {
    Seq::new(n, |i: int| 0u64)
}

/// The string with zero places put in front until it has at least `n` places.
pub open spec fn padded(s: Seq<u64>, n: nat) -> Seq<u64> {
    if s.len() >= n {
        s
    } else {
        zeros((n - s.len()) as nat) + s
    }
}

/// The string of at least `n` places that stands for `v`: the shortest one,
/// with zero places in front where it is shorter than `n`.
pub open spec fn fitted(base: nat, v: nat, n: nat) -> Seq<u64> {
    padded(canonical(base, v), n)
}

/// The units that spell a string of places in an alphabet.
pub open spec fn spelled(units: Seq<char>, s: Seq<u64>) -> Seq<char> {
    Seq::new(s.len(), |i: int| units[s[i] as int])
}

/// The places that a text of units stands for in an alphabet.
pub open spec fn parsed(units: Seq<char>, text: Seq<char>) -> Seq<u64> {
    Seq::new(text.len(), |i: int| units.index_of(text[i]) as u64)
}

/// The digits that a text stands for: those of its units, and the single
/// digit 0 for the empty text.
pub open spec fn read(units: Seq<char>, text: Seq<char>) -> Seq<u64> {
    if text.len() == 0 {
        seq![0u64]
    } else {
        parsed(units, text)
    }
}

/// Every character of the text is a unit of the alphabet.
pub open spec fn all_units(units: Seq<char>, text: Seq<char>) -> bool {
    forall|i: int| 0 <= i < text.len() ==> units.contains(#[trigger] text[i])
}

/// Appending a place multiplies by the base and adds the place.
pub proof fn lemma_value_push(base: nat, s: Seq<u64>, d: u64)
    ensures
        value(base, s.push(d)) == value(base, s) * base + d,
{
    assert(s.push(d).drop_last() =~= s);
}

/// The number of places at the end of a string that hold `x`.
pub open spec fn trailing(s: Seq<u64>, x: u64) -> nat
    decreases s.len(),
{
    if s.len() == 0 || s.last() != x {
        0
    } else {
        1 + trailing(s.drop_last(), x)
    }
}

/// The number of places directly before place `i` that hold, one after the
/// other, the same digit as place `i`.
pub open spec fn repeats_at(s: Seq<u64>, i: int) -> nat
    decreases i,
{
    if i <= 0 || i >= s.len() || s[i] != s[i - 1] {
        0
    } else {
        1 + repeats_at(s, i - 1)
    }
}

/// No digit is repeated more than `limit` times in a row.
pub open spec fn within_limit(s: Seq<u64>, limit: nat) -> bool {
    forall|i: int| 0 <= i < s.len() ==> #[trigger] repeats_at(s, i) <= limit
}

/// The last `n` places of a string, or all of it where it has fewer.
pub open spec fn low(s: Seq<u64>, n: nat) -> Seq<u64> {
    if n >= s.len() {
        s
    } else {
        s.subrange(s.len() - n, s.len() as int)
    }
}

/// A place in front of a string counts by the base to the power of the
/// string's length.
pub proof fn lemma_value_prepend(base: nat, d: u64, t: Seq<u64>)
    ensures
        value(base, seq![d] + t) == d * pow(base as int, t.len()) + value(base, t),
{
    lemma_value_concat(base, seq![d], t);
    lemma_value_single(base, d);
}

/// A single place stands for itself.
pub proof fn lemma_value_single(base: nat, d: u64)
    ensures
        value(base, seq![d]) == d,
{
    assert(seq![d].drop_last() =~= Seq::<u64>::empty());
    assert(value(base, Seq::<u64>::empty()) == 0);
    assert(value(base, seq![d]) == value(base, seq![d].drop_last()) * base + d);
}

/// A string and what follows it: the first is shifted by the length of the
/// second.
pub proof fn lemma_value_concat(base: nat, s: Seq<u64>, t: Seq<u64>)
    ensures
        value(base, s + t) == value(base, s) * pow(base as int, t.len()) + value(base, t),
    decreases t.len(),
{
    if t.len() == 0 {
        assert(s + t =~= s);
        lemma_pow0(base as int);
    } else {
        let t0 = t.drop_last();
        assert((s + t).drop_last() =~= s + t0);
        lemma_value_concat(base, s, t0);
        let p0 = pow(base as int, t0.len());
        lemma_pow1(base as int);
        lemma_pow_adds(base as int, t0.len(), 1);
        assert(pow(base as int, t.len()) == p0 * base);
        let a = value(base, s) as int;
        let b = base as int;
        assert((a * p0 + value(base, t0)) * b == a * (p0 * b) + value(base, t0) * b)
            by (nonlinear_arith);
    }
}

/// Zero places stand for zero.
pub proof fn lemma_value_zeros(base: nat, n: nat)
    ensures
        value(base, zeros(n)) == 0,
    decreases n,
{
    if n > 0 {
        assert(zeros(n).drop_last() =~= zeros((n - 1) as nat));
        assert(zeros(n).last() == 0);
        lemma_value_zeros(base, (n - 1) as nat);
        assert(0 * base == 0);
    }
}

/// Zero places in front change nothing.
pub proof fn lemma_value_padded(base: nat, s: Seq<u64>, n: nat)
    ensures
        value(base, padded(s, n)) == value(base, s),
        padded(s, n).len() == (if s.len() >= n {
            s.len()
        } else {
            n
        }),
        in_range(base, s) && base >= 1 ==> in_range(base, padded(s, n)),
{
    if s.len() < n {
        let z = zeros((n - s.len()) as nat);
        lemma_value_concat(base, z, s);
        lemma_value_zeros(base, (n - s.len()) as nat);
        assert(0 * pow(base as int, s.len()) == 0);
    }
}

/// A string of digits stands for less than the base to the power of its length.
pub proof fn lemma_value_bound(base: nat, s: Seq<u64>)
    requires
        in_range(base, s),
    ensures
        value(base, s) < pow(base as int, s.len()),
    decreases s.len(),
{
    if s.len() == 0 {
        lemma_pow0(base as int);
    } else {
        let r = s.drop_last();
        lemma_value_bound(base, r);
        lemma_pow1(base as int);
        lemma_pow_adds(base as int, r.len(), 1);
        let p = pow(base as int, r.len());
        let v = value(base, r) as int;
        let b = base as int;
        assert(s.last() < base);
        assert(v * b + b <= p * b) by (nonlinear_arith)
            requires
                v + 1 <= p,
                b >= 0,
        ;
    }
}

/// A string of digits stands for zero exactly when all its places are zero.
pub proof fn lemma_value_zero(base: nat, s: Seq<u64>)
    requires
        in_range(base, s),
    ensures
        value(base, s) == 0 <==> s =~= zeros(s.len()),
    decreases s.len(),
{
    if s.len() > 0 {
        let r = s.drop_last();
        lemma_value_zero(base, r);
        let v = value(base, r) as int;
        let b = base as int;
        assert(s[0] < base);
        if v > 0 {
            assert(v * b >= 1) by (nonlinear_arith)
                requires
                    v >= 1,
                    b >= 1,
            ;
            if s =~= zeros(s.len()) {
                assert(r =~= zeros(r.len()));
            }
        } else {
            assert(v * b == 0) by (nonlinear_arith)
                requires
                    v == 0,
            ;
            if s.last() == 0 {
                assert(s =~= r.push(s.last()));
                assert(s =~= zeros(s.len()));
            } else {
                assert(zeros(s.len())[s.len() - 1] == 0);
            }
        }
    }
}

/// What the shortest string for a number is like.
pub proof fn lemma_canonical(base: nat, v: nat)
    requires
        base >= 2 || v == 0,
        1 <= base <= u64::MAX,
    ensures
        canonical(base, v).len() >= 1,
        in_range(base, canonical(base, v)),
        value(base, canonical(base, v)) == v,
        canonical(base, v)[0] != 0 || v == 0,
        v < base ==> canonical(base, v) == seq![v as u64],
    decreases v,
{
    if v < base {
        lemma_value_single(base, v as u64);
    } else {
        lemma_div_decreases(v as int, base as int);
        lemma_div_pos_is_pos(v as int, base as int);
        lemma_fundamental_div_mod(v as int, base as int);
        lemma_mod_bound(v as int, base as int);
        let q = v / base;
        let c = canonical(base, q);
        lemma_canonical(base, q);
        lemma_value_push(base, c, (v % base) as u64);
        assert(q >= 1) by {
            if q == 0 {
                lemma_basic_div(v as int, base as int);
                assert(base as int * 0 == 0);
            }
        }
        assert(base as int * (q as int) == (q as int) * (base as int)) by (nonlinear_arith);
        assert(c.push((v % base) as u64)[0] == c[0]);
    }
}

/// A string of digits that does not begin with zero is the shortest for its
/// number.
pub proof fn lemma_canonical_unique(base: nat, s: Seq<u64>)
    requires
        in_range(base, s),
        s.len() >= 1,
        s[0] != 0 || s.len() == 1,
    ensures
        s == canonical(base, value(base, s)),
    decreases s.len(),
{
    let r = s.drop_last();
    let d = s.last();
    assert(d < base);
    if s.len() == 1 {
        assert(r =~= Seq::<u64>::empty());
        assert(value(base, r) == 0);
        assert(value(base, s) == 0 * base + d);
        assert(s =~= seq![d]);
    } else {
        assert(r[0] == s[0]);
        lemma_canonical_unique(base, r);
        lemma_value_zero(base, r);
        let v = value(base, r);
        assert(v >= 1) by {
            if v == 0 {
                assert(zeros(r.len())[0] == 0);
            }
        }
        let total = value(base, s);
        assert(total == v * base + d);
        assert(base >= 2);
        lemma_fundamental_div_mod_converse(total as int, base as int, v as int, d as int);
        assert(v * base >= base) by (nonlinear_arith)
            requires
                v >= 1,
        ;
        assert(s =~= r.push(d));
    }
}

/// A string of digits is the fitted string for its number and its length.
pub proof fn lemma_fitted_unique(base: nat, s: Seq<u64>)
    requires
        base >= 1,
        in_range(base, s),
        s.len() >= 1,
    ensures
        s == fitted(base, value(base, s), s.len()),
        canonical(base, value(base, s)).len() <= s.len(),
    decreases s.len(),
{
    if s[0] != 0 || s.len() == 1 {
        lemma_canonical_unique(base, s);
    } else {
        let t = s.drop_first();
        assert(s =~= seq![0u64] + t);
        lemma_value_concat(base, seq![0u64], t);
        lemma_value_single(base, 0u64);
        assert(0 * pow(base as int, t.len()) == 0);
        assert(value(base, s) == value(base, t));
        assert(in_range(base, t)) by {
            assert forall|i: int| 0 <= i < t.len() implies (#[trigger] t[i]) < base by {
                assert(t[i] == s[i + 1]);
            }
        }
        lemma_fitted_unique(base, t);
        let c = canonical(base, value(base, t));
        assert(fitted(base, value(base, s), s.len()) =~= seq![0u64] + padded(c, t.len()));
    }
}

/// Of two strings of digits of one length that agree up to a place, the one
/// with the lesser digit there stands for the lesser number.
pub proof fn lemma_value_lex(base: nat, s: Seq<u64>, t: Seq<u64>, k: int)
    requires
        base >= 1,
        in_range(base, s),
        in_range(base, t),
        s.len() == t.len(),
        0 <= k < s.len(),
        s.take(k) == t.take(k),
        s[k] < t[k],
    ensures
        value(base, s) < value(base, t),
{
    let m = (s.len() - k - 1) as nat;
    let sp = s.take(k + 1);
    let tp = t.take(k + 1);
    let ss = s.skip(k + 1);
    let ts = t.skip(k + 1);
    assert(s =~= sp + ss);
    assert(t =~= tp + ts);
    assert(sp =~= s.take(k).push(s[k]));
    assert(tp =~= t.take(k).push(t[k]));
    lemma_value_push(base, s.take(k), s[k]);
    lemma_value_push(base, t.take(k), t[k]);
    lemma_value_concat(base, sp, ss);
    lemma_value_concat(base, tp, ts);
    assert(in_range(base, ss));
    lemma_value_bound(base, ss);
    let p = pow(base as int, m);
    let x = value(base, sp) as int;
    let y = value(base, tp) as int;
    assert(x + 1 <= y);
    assert(x * p + p <= y * p) by (nonlinear_arith)
        requires
            x + 1 <= y,
            p >= 0,
    ;
}

/// A number below the base to the power of `k` needs no more than `k` digits.
pub proof fn lemma_canonical_len(base: nat, w: nat, k: nat)
    requires
        2 <= base <= u64::MAX,
        k >= 1,
        w < pow(base as int, k),
    ensures
        canonical(base, w).len() <= k,
    decreases w,
{
    if w >= base {
        lemma_div_decreases(w as int, base as int);
        lemma_div_pos_is_pos(w as int, base as int);
        lemma_pow1(base as int);
        if k == 1 {
            assert(false);
        }
        lemma_pow_adds(base as int, (k - 1) as nat, 1);
        let p = pow(base as int, (k - 1) as nat);
        assert(pow(base as int, k) == p * base);
        lemma_fundamental_div_mod(w as int, base as int);
        lemma_mod_bound(w as int, base as int);
        let q = (w / base) as int;
        assert(q < p) by {
            if q >= p {
                assert(base * q >= p * base) by (nonlinear_arith)
                    requires
                        q >= p,
                        base >= 0,
                ;
            }
        }
        lemma_canonical_len(base, w / base, (k - 1) as nat);
    }
}

/// A greater number needs no fewer digits.
pub proof fn lemma_canonical_monotone(base: nat, v: nat, w: nat)
    requires
        1 <= base <= u64::MAX,
        v <= w,
    ensures
        canonical(base, v).len() <= canonical(base, w).len(),
        canonical(base, v).len() >= 1,
    decreases w,
{
    if base >= 2 && w >= base {
        lemma_div_decreases(w as int, base as int);
        lemma_div_pos_is_pos(w as int, base as int);
        if v >= base {
            lemma_div_pos_is_pos(v as int, base as int);
            lemma_div_is_ordered(v as int, w as int, base as int);
            lemma_canonical_monotone(base, v / base, w / base);
        } else {
            lemma_canonical_monotone(base, 0, w / base);
        }
    }
}

/// What the fitted string for a number is like.
pub proof fn lemma_fitted(base: nat, v: nat, n: nat)
    requires
        base >= 2 || v == 0,
        1 <= base <= u64::MAX,
    ensures
        fitted(base, v, n).len() == longest(canonical(base, v).len(), n),
        fitted(base, v, n).len() >= 1,
        in_range(base, fitted(base, v, n)),
        value(base, fitted(base, v, n)) == v,
{
    lemma_canonical(base, v);
    lemma_value_padded(base, canonical(base, v), n);
}

/// The greater of two lengths.
pub open spec fn longest(a: nat, b: nat) -> nat {
    if a >= b {
        a
    } else {
        b
    }
}

/// In a base of a single digit every string of digits stands for zero.
pub proof fn lemma_base_one(s: Seq<u64>)
    requires
        in_range(1, s),
    ensures
        value(1, s) == 0,
{
    assert(s =~= zeros(s.len()));
    lemma_value_zero(1, s);
}

/// The repeats before a place depend on the digits up to that place only.
pub proof fn lemma_repeats_prefix(s: Seq<u64>, t: Seq<u64>, i: int)
    requires
        0 <= i < s.len(),
        i < t.len(),
        s.take(i + 1) == t.take(i + 1),
    ensures
        repeats_at(s, i) == repeats_at(t, i),
    decreases i,
{
    assert(s[i] == s.take(i + 1)[i]);
    assert(t[i] == t.take(i + 1)[i]);
    if i > 0 {
        assert(s[i - 1] == s.take(i + 1)[i - 1]);
        assert(t[i - 1] == t.take(i + 1)[i - 1]);
        assert(s.take(i) =~= s.take(i + 1).take(i));
        assert(t.take(i) =~= t.take(i + 1).take(i));
        lemma_repeats_prefix(s, t, i - 1);
    }
}

/// The string `1010..` of `n` places.
pub open spec fn zigzag(n: nat) -> Seq<u64> {
    Seq::new(
        n,
        |i: int|
            if i % 2 == 0 {
                1u64
            } else {
                0u64
            },
    )
}

/// The string `1010..` repeats no digit, is the fitted string for its number
/// at any lesser length, and stands for more than any shorter string.
pub proof fn lemma_zigzag(base: nat, n: nat, limit: nat)
    requires
        base >= 2,
        n >= 2,
    ensures
        in_range(base, zigzag(n)),
        within_limit(zigzag(n), limit),
        forall|m: nat| m < n ==> #[trigger] fitted(base, value(base, zigzag(n)), m) == zigzag(n),
        value(base, zigzag(n)) >= pow(base as int, (n - 1) as nat),
{
    let z = zigzag(n);
    assert forall|i: int| 0 <= i < z.len() implies #[trigger] repeats_at(z, i) <= limit by {
        if i > 0 {
            assert(z[i] != z[i - 1]);
        }
    }
    lemma_canonical_unique(base, z);
    let rest = z.drop_first();
    assert(z =~= seq![1u64] + rest);
    lemma_value_prepend(base, 1u64, rest);
}

/// The string in which the digits up to place `i` are raised by one, as a
/// number, and all digits after it are zero.
pub open spec fn bumped(base: nat, s: Seq<u64>, i: int) -> Seq<u64> {
    fitted(base, value(base, s.take(i + 1)) + 1, (i + 1) as nat) + zeros((s.len() - i - 1) as nat)
}

/// The number `v`, written with `n` digits or with as many as it needs, holds
/// no digit more than `limit` times in a row after itself.
pub open spec fn allowed(base: nat, v: nat, n: nat, limit: nat) -> bool {
    within_limit(fitted(base, v, n), limit)
}

/// `v` is the least number from `from` on that is [`allowed`].
pub open spec fn least_allowed(base: nat, from: nat, n: nat, limit: nat, v: nat) -> bool {
    &&& from <= v
    &&& allowed(base, v, n, limit)
    &&& forall|w: nat| from <= w < v ==> !#[trigger] allowed(base, w, n, limit)
}

/// A fitted string longer than asked for does not begin with zero.
pub proof fn lemma_fitted_longer(base: nat, s: Seq<u64>, n: nat)
    requires
        2 <= base <= u64::MAX,
        s == fitted(base, value(base, s), n),
        s.len() > n,
        n >= 1,
    ensures
        s[0] != 0,
{
    let v = value(base, s);
    lemma_canonical(base, v);
}

/// Raising the digits up to a place where a digit is repeated too often skips
/// no number that is allowed, and gives a fitted string for a greater number.
pub proof fn lemma_bumped(base: nat, s: Seq<u64>, i: int, n: nat, limit: nat)
    requires
        2 <= base <= u64::MAX,
        n >= 1,
        in_range(base, s),
        0 < i < s.len(),
        s == fitted(base, value(base, s), n),
        repeats_at(s, i) > limit,
    ensures
        in_range(base, bumped(base, s, i)),
        bumped(base, s, i).len() >= 1,
        bumped(base, s, i) == fitted(base, value(base, bumped(base, s, i)), n),
        value(base, bumped(base, s, i)) > value(base, s),
        forall|w: nat|
            value(base, s) <= w < value(base, bumped(base, s, i)) ==> !#[trigger] allowed(
                base,
                w,
                n,
                limit,
            ),
{
    let head = s.take(i + 1);
    let tail = s.skip(i + 1);
    let r = tail.len();
    let m = s.len();
    let p = pow(base as int, r);
    let hv = value(base, head);
    assert(s =~= head + tail);
    lemma_value_concat(base, head, tail);
    lemma_value_bound(base, tail);
    lemma_pow_positive(base as int, r);
    // the raised head
    let c = canonical(base, hv + 1);
    let d = fitted(base, hv + 1, (i + 1) as nat);
    lemma_canonical(base, hv + 1);
    lemma_value_padded(base, c, (i + 1) as nat);
    let t = bumped(base, s, i);
    assert(t == d + zeros(r));
    lemma_value_concat(base, d, zeros(r));
    lemma_value_zeros(base, r);
    assert(value(base, t) == (hv + 1) * p);
    assert((hv + 1) * p == hv * p + p) by (nonlinear_arith);
    assert(in_range(base, t));
    // a fitted string is at least as long as asked for
    lemma_canonical(base, value(base, s));
    lemma_value_padded(base, canonical(base, value(base, s)), n);
    assert(m >= n);
    if m > n {
        lemma_fitted_longer(base, s, n);
        assert(head[0] == s[0]);
    }
    // the shape of the result
    lemma_fitted_unique(base, t);
    if t.len() > n {
        assert(t[0] == d[0]);
        if d.len() > i + 1 {
            assert(d == c);
        } else {
            assert(m > n);
            if d[0] == 0 {
                assert(d.take(0) =~= head.take(0));
                lemma_value_lex(base, d, head, 0);
            }
        }
        lemma_canonical_unique(base, t);
        lemma_canonical(base, value(base, t));
    }
    // nothing allowed is skipped
    assert forall|w: nat| value(base, s) <= w < value(base, t) implies !#[trigger] allowed(
        base,
        w,
        n,
        limit,
    ) by {
        let u = (w - hv * p) as nat;
        let found = if r == 0 {
            head
        } else {
            head + fitted(base, u, r)
        };
        if r == 0 {
            lemma_pow0(base as int);
            assert(tail =~= Seq::<u64>::empty());
            assert(s =~= head);
            assert(w == value(base, s));
        } else {
            let low = fitted(base, u, r);
            lemma_canonical(base, u);
            lemma_canonical_len(base, u, r);
            lemma_value_padded(base, canonical(base, u), r);
            assert(low.len() == r);
            lemma_value_concat(base, head, low);
            assert(value(base, found) == w);
            assert(in_range(base, found));
            lemma_fitted_unique(base, found);
            if m > n {
                assert(found[0] == head[0]);
                lemma_canonical_unique(base, found);
                lemma_canonical(base, w);
            }
            assert(found == fitted(base, w, n));
            assert(found.take(i + 1) =~= head);
        }
        assert(found == fitted(base, w, n));
        lemma_repeats_prefix(found, s, i);
        assert(repeats_at(found, i) > limit);
    }
}

} // verus!
