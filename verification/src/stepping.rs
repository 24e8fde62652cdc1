//! Why stepping finds the next number: the increments of the generator are
//! the distances from a number that holds no digit too often to the next one.

use crate::places::{
    allowed, canonical, fitted, in_range, least_allowed, lemma_canonical, lemma_canonical_len,
    lemma_canonical_unique, lemma_fitted_unique, lemma_repeats_prefix, lemma_value_bound,
    lemma_value_concat, lemma_value_lex, lemma_value_padded, lemma_value_prepend,
    lemma_value_push, lemma_value_single, lemma_value_zeros, repeats_at, trailing, value,
    within_limit, zeros,
};
use crate::step_map::{code_at, next_code, next_tail};
use vstd::arithmetic::power::{lemma_pow0, lemma_pow1, lemma_pow_adds, lemma_pow_positive, pow};
use vstd::prelude::*;

verus! {

/// The place of index `i` in its round of `limit + 2` places, counted from 0.
pub open spec fn phase(i: nat, limit: nat) -> nat
    decreases i,
{
    if i == 0 {
        0
    } else if phase((i - 1) as nat, limit) == limit + 1 {
        0
    } else {
        phase((i - 1) as nat, limit) + 1
    }
}

/// The place that a code holds at index `i` before its last place is raised:
/// 2 at the start of each round, 0 elsewhere.
pub open spec fn ground(i: nat, limit: nat) -> u64 {
    if phase(i, limit) == 0 {
        2
    } else {
        0
    }
}

/// The code of `q + 1` places that begins with `lead`, holds 2 at the start
/// of each round after that and 0 elsewhere, and has its last place raised by
/// one.
pub open spec fn code_form(limit: nat, lead: u64, q: nat) -> Seq<u64> {
    Seq::new(
        q + 1,
        |i: int|
            ((if i == 0 {
                lead
            } else {
                ground(i as nat, limit)
            }) + (if i == q {
                1u64
            } else {
                0u64
            })) as u64,
    )
}

/// The phase stays below the length of a round.
pub proof fn lemma_phase_bound(i: nat, limit: nat)
    ensures
        phase(i, limit) <= limit + 1,
    decreases i,
{
    if i > 0 {
        lemma_phase_bound((i - 1) as nat, limit);
    }
}

/// Going back by no more than the phase lowers the phase by as much.
pub proof fn lemma_phase_back(i: nat, d: nat, limit: nat)
    requires
        d <= phase(i, limit),
    ensures
        d <= i,
        phase((i - d) as nat, limit) == phase(i, limit) - d,
    decreases d,
{
    if d > 0 {
        assert(i > 0);
        lemma_phase_bound((i - 1) as nat, limit);
        lemma_phase_back((i - 1) as nat, (d - 1) as nat, limit);
    }
}

/// The number of places at the end of a string that hold `x`, where the
/// last `k` do and the one before them does not.
pub proof fn lemma_trailing_exact(s: Seq<u64>, x: u64, k: nat)
    requires
        k <= s.len(),
        forall|j: int| s.len() - k <= j < s.len() ==> s[j] == x,
        k < s.len() ==> s[s.len() - k - 1] != x,
    ensures
        trailing(s, x) == k,
    decreases k,
{
    if k > 0 {
        let r = s.drop_last();
        assert forall|j: int| r.len() - (k - 1) <= j < r.len() implies r[j] == x by {
            assert(r[j] == s[j]);
        }
        if k - 1 < r.len() {
            assert(r[r.len() - (k - 1) - 1] == s[s.len() - k - 1]);
        }
        lemma_trailing_exact(r, x, (k - 1) as nat);
    }
}

/// After a code that begins with 1 comes the same code beginning with 2.
pub proof fn lemma_next_of_one(limit: nat, q: nat)
    ensures
        next_code(code_form(limit, 1, q), limit) == code_form(limit, 2, q),
{
    let s = code_form(limit, 1, q);
    let t = code_form(limit, 2, q);
    if q == 0 {
        assert(t =~= seq![3u64]);
        assert(s[0] == 2);
    } else if q == 1 {
        assert(phase(1, limit) == 1) by {
            assert(phase(0, limit) == 0);
        }
        assert(s[0] == 1 && s[1] == 1);
        assert(t =~= seq![2u64, 1u64]);
    } else {
        assert(s[0] == 1);
        assert(seq![2u64] + s.drop_first() =~= t);
    }
}

/// After a code that begins with 2 comes the code with one place more that
/// begins with 1.
pub proof fn lemma_next_of_two(limit: nat, q: nat)
    ensures
        next_code(code_form(limit, 2, q), limit) == code_form(limit, 1, q + 1),
{
    let s = code_form(limit, 2, q);
    let t = code_form(limit, 1, q + 1);
    assert(phase(0, limit) == 0);
    assert(phase(1, limit) == 1);
    lemma_phase_bound(q, limit);
    lemma_phase_bound((q + 1) as nat, limit);
    if q == 0 {
        assert(s[0] == 3);
        assert(t =~= seq![1u64, 1u64]);
    } else if q == 1 {
        assert(s[0] == 2 && s[1] == 1);
        assert(phase(2, limit) == (if limit == 0 {
            0nat
        } else {
            2nat
        }));
        if limit == 0 {
            assert(t =~= seq![1u64, 0u64, 3u64]);
        } else {
            assert(t =~= seq![1u64, 0u64, 1u64]);
        }
    } else {
        let room = limit + 1;
        lemma_phase_bound((q - 1) as nat, limit);
        lemma_phase_bound((q - 2) as nat, limit);
        let a = s[q - 1];
        let b = s[q as int];
        assert(a == ground((q - 1) as nat, limit));
        assert(b == ground(q, limit) + 1);
        assert(s[0] == 2);
        let tail = next_tail(s, room);
        if a == 0 && b == 1 {
            // ..01: the zeros at the end of the cut are those since the last 2
            let cut = s.drop_last();
            let p = phase((q - 1) as nat, limit);
            assert(p >= 1);
            assert(p <= limit);
            lemma_phase_back((q - 1) as nat, p, limit);
            assert forall|j: int| cut.len() - p <= j < cut.len() implies cut[j] == 0 by {
                lemma_phase_back((q - 1) as nat, (q - 1 - j) as nat, limit);
            }
            assert(cut[cut.len() - p - 1] != 0) by {
                let i = (q - 1 - p) as nat;
                assert(cut[i as int] == s[i as int]);
            }
            lemma_trailing_exact(cut, 0, p);
            let filled = cut.push(0);
            assert forall|j: int| filled.len() - (p + 1) <= j < filled.len() implies filled[j]
                == 0 by {
                if j < cut.len() {
                    assert(filled[j] == cut[j]);
                }
            }
            assert(filled[filled.len() - (p + 1) - 1] == cut[cut.len() - p - 1]);
            lemma_trailing_exact(filled, 0, p + 1);
            assert(phase(q, limit) == p + 1);
            assert(seq![1u64] + tail.drop_first() =~= t);
        } else if a == 0 && b == 3 {
            assert(phase(q, limit) == 0);
            assert(phase((q + 1) as nat, limit) == 1);
            assert(seq![1u64] + tail.drop_first() =~= t);
        } else {
            // ..21: a whole round of zeros ends the cut
            assert(phase((q - 1) as nat, limit) == 0);
            assert(phase(q, limit) == 1);
            assert(a == 2 && b == 1);
            let cut = s.drop_last().drop_last();
            assert(phase((q - 2) as nat, limit) == limit + 1);
            lemma_phase_back((q - 2) as nat, limit + 1, limit);
            assert forall|j: int| cut.len() - room <= j < cut.len() implies cut[j] == 0 by {
                lemma_phase_back((q - 2) as nat, (q - 2 - j) as nat, limit);
            }
            assert(cut[cut.len() - room - 1] != 0) by {
                let i = (q - 2 - (limit + 1)) as nat;
                assert(cut[i as int] == s[i as int]);
            }
            lemma_trailing_exact(cut, 0, room);
            assert(phase((q + 1) as nat, limit) == (if limit == 0 {
                0nat
            } else {
                2nat
            }));
            assert(seq![1u64] + tail.drop_first() =~= t);
        }
    }
}

/// The step at which the code of `q + 1` places that begins with `lead` is
/// handed out.
pub open spec fn code_step(lead: u64, q: nat) -> nat {
    (2 * q + 1 + lead) as nat
}

/// The codes that the generator hands out: `1` first, and then for each
/// length the code that begins with 1 and the one that begins with 2.
pub proof fn lemma_code_at_form(limit: nat, q: nat)
    ensures
        code_at(limit, 1) == seq![1u64],
        code_at(limit, code_step(1, q)) == code_form(limit, 1, q),
        code_at(limit, code_step(2, q)) == code_form(limit, 2, q),
    decreases q,
{
    assert(code_at(limit, 1) =~= seq![1u64]) by {
        assert(code_at(limit, 0) =~= Seq::<u64>::empty());
    }
    if q == 0 {
        assert(code_form(limit, 1, 0) =~= seq![2u64]);
        assert(code_at(limit, 2) == next_code(code_at(limit, 1), limit));
    } else {
        lemma_code_at_form(limit, (q - 1) as nat);
        lemma_next_of_two(limit, (q - 1) as nat);
        assert(code_at(limit, code_step(1, q)) == next_code(
            code_at(limit, code_step(2, (q - 1) as nat)),
            limit,
        ));
    }
    lemma_next_of_one(limit, q);
    assert(code_at(limit, code_step(2, q)) == next_code(
        code_at(limit, code_step(1, q)),
        limit,
    ));
}

/// The value of a string whose places are the sums of the places of two
/// others is the sum of their values.
pub proof fn lemma_value_sum(base: nat, s: Seq<u64>, t: Seq<u64>, u: Seq<u64>)
    requires
        s.len() == t.len(),
        s.len() == u.len(),
        forall|j: int| 0 <= j < u.len() ==> u[j] == s[j] + t[j],
    ensures
        value(base, u) == value(base, s) + value(base, t),
    decreases u.len(),
{
    if u.len() > 0 {
        let s0 = s.drop_last();
        let t0 = t.drop_last();
        let u0 = u.drop_last();
        assert forall|j: int| 0 <= j < u0.len() implies u0[j] == s0[j] + t0[j] by {
            assert(u0[j] == u[j]);
        }
        lemma_value_sum(base, s0, t0, u0);
        assert((value(base, s0) + value(base, t0)) * base == value(base, s0) * base + value(
            base,
            t0,
        ) * base) by (nonlinear_arith);
    }
}

/// A string of the highest digit stands for the base to the power of its
/// length, less one.
pub proof fn lemma_value_full(base: nat, s: Seq<u64>)
    requires
        base >= 1,
        forall|j: int| 0 <= j < s.len() ==> s[j] == base - 1,
    ensures
        value(base, s) == pow(base as int, s.len()) - 1,
    decreases s.len(),
{
    if s.len() == 0 {
        lemma_pow0(base as int);
    } else {
        let r = s.drop_last();
        lemma_value_full(base, r);
        lemma_pow1(base as int);
        lemma_pow_adds(base as int, r.len(), 1);
        let p = pow(base as int, r.len());
        assert((p - 1) * base + (base - 1) == p * base - 1) by (nonlinear_arith);
    }
}

/// Of two strings of digits of one length, the one that stands for more has
/// the greater digit at the first place where they differ.
pub proof fn lemma_first_difference(base: nat, s: Seq<u64>, t: Seq<u64>) -> (p: int)
    requires
        base >= 1,
        in_range(base, s),
        in_range(base, t),
        s.len() == t.len(),
        value(base, s) > value(base, t),
    ensures
        0 <= p < s.len(),
        s.take(p) == t.take(p),
        s[p] > t[p],
    decreases s.len(),
{
    if s.len() == 0 {
        assert(false);
        0
    } else if s[0] > t[0] {
        assert(s.take(0) =~= t.take(0));
        0
    } else if s[0] < t[0] {
        assert(s.take(0) =~= t.take(0));
        lemma_value_lex(base, s, t, 0);
        0
    } else {
        let s1 = s.drop_first();
        let t1 = t.drop_first();
        assert(s =~= seq![s[0]] + s1);
        assert(t =~= seq![t[0]] + t1);
        lemma_value_prepend(base, s[0], s1);
        lemma_value_prepend(base, t[0], t1);
        assert(in_range(base, s1)) by {
            assert forall|j: int| 0 <= j < s1.len() implies (#[trigger] s1[j]) < base by {
                assert(s1[j] == s[j + 1]);
            }
        }
        assert(in_range(base, t1)) by {
            assert forall|j: int| 0 <= j < t1.len() implies (#[trigger] t1[j]) < base by {
                assert(t1[j] == t[j + 1]);
            }
        }
        let p1 = lemma_first_difference(base, s1, t1);
        assert(s.take(p1 + 1) =~= seq![s[0]] + s1.take(p1));
        assert(t.take(p1 + 1) =~= seq![t[0]] + t1.take(p1));
        p1 + 1
    }
}

/// A digit that follows `k` places that all hold it is repeated `k` times
/// or more.
pub proof fn lemma_run(s: Seq<u64>, i: int, k: nat)
    requires
        0 <= i - k,
        i < s.len(),
        forall|j: int| i - k <= j <= i ==> s[j] == s[i],
    ensures
        repeats_at(s, i) >= k,
    decreases k,
{
    if k > 0 {
        assert(s[i - 1] == s[i]);
        lemma_run(s, i - 1, (k - 1) as nat);
    }
}

/// A digit is repeated no more often than there are places since the last
/// place that differs from the one before it.
pub proof fn lemma_break(s: Seq<u64>, i: int, j: int)
    requires
        0 < j <= i,
        i < s.len(),
        s[j] != s[j - 1],
    ensures
        repeats_at(s, i) <= i - j,
    decreases i - j,
{
    if j < i {
        lemma_break(s, i - 1, j);
    }
}

/// A number from `v` times the base to the power of `q` up to the next such
/// number has digits that begin with the digits of `v`.
pub proof fn lemma_split(base: nat, w: nat, head: Seq<u64>, q: nat) -> (low: Seq<u64>)
    requires
        2 <= base <= u64::MAX,
        in_range(base, head),
        value(base, head) * pow(base as int, q) <= w,
        w < (value(base, head) + 1) * pow(base as int, q),
    ensures
        low.len() == q,
        in_range(base, low),
        value(base, low) == w - value(base, head) * pow(base as int, q),
        value(base, head + low) == w,
        in_range(base, head + low),
{
    let p = pow(base as int, q);
    let hv = value(base, head) as int;
    let u = (w - hv * p) as nat;
    assert((hv + 1) * p == hv * p + p) by (nonlinear_arith);
    let low = if q == 0 {
        Seq::<u64>::empty()
    } else {
        fitted(base, u, q)
    };
    if q == 0 {
        lemma_pow0(base as int);
        assert(value(base, low) == 0);
    } else {
        lemma_canonical(base, u);
        lemma_canonical_len(base, u, q);
        lemma_value_padded(base, canonical(base, u), q);
    }
    lemma_value_concat(base, head, low);
    low
}

/// The digit at place `j` of the least string that can follow a digit other
/// than zero: zeros, with a 1 after every `limit + 1` of them.
pub open spec fn fill(j: nat, limit: nat) -> u64 {
    if phase(j + 1, limit) == 0 {
        1
    } else {
        0
    }
}

/// The least string of `q` places that can follow a digit other than zero.
pub open spec fn filler(q: nat, limit: nat) -> Seq<u64> {
    Seq::new(q, |j: int| fill(j as nat, limit))
}

/// The greatest string of `q` places that can follow a digit other than the
/// highest: the highest digit, with the one below it after every `limit + 1`
/// of them.
pub open spec fn brim(base: nat, q: nat, limit: nat) -> Seq<u64> {
    Seq::new(q, |j: int| (base - 1 - fill(j as nat, limit)) as u64)
}

/// The string with its last place raised by `by`, and the single place `by`
/// for the empty string.
pub open spec fn raised(head: Seq<u64>, by: u64) -> Seq<u64> {
    if head.len() == 0 {
        seq![by]
    } else {
        head.drop_last().push((head.last() + by) as u64)
    }
}

/// A number that ends in the greatest string of `q` places, and the way its
/// head is raised to reach the next number: by one where that leaves no digit
/// repeated too often, and by two where raising by one would.
pub open spec fn at_brim(base: nat, x: Seq<u64>, q: nat, by: u64, limit: nat) -> bool {
    let head = x.take(x.len() - q);
    &&& 4 <= base <= 255
    &&& x.len() >= 1
    &&& in_range(base, x)
    &&& within_limit(x, limit)
    &&& q <= x.len()
    &&& x.skip(x.len() - q) == brim(base, q, limit)
    &&& by == 1 || by == 2
    &&& by == 1 ==> head.len() == 0 || (head.last() + 1 < base && repeats_at(
        raised(head, 1),
        head.len() - 1,
    ) <= limit)
    &&& by == 2 ==> head.len() > 0 && head.last() + 2 < base && repeats_at(
        raised(head, 1),
        head.len() - 1,
    ) > limit
}

/// The number that follows a number [at the brim](at_brim).
pub open spec fn over_brim(x: Seq<u64>, q: nat, by: u64, limit: nat) -> Seq<u64> {
    raised(x.take(x.len() - q), by) + filler(q, limit)
}

/// Raising the last place raises the value by as much.
pub proof fn lemma_value_raised(base: nat, head: Seq<u64>, by: u64)
    requires
        head.len() > 0 ==> head.last() + by <= u64::MAX,
    ensures
        value(base, raised(head, by)) == value(base, head) + by,
{
    if head.len() == 0 {
        lemma_value_single(base, by);
    } else {
        lemma_value_push(base, head.drop_last(), (head.last() + by) as u64);
    }
}

/// The zeros of the filler come in runs of no more than `limit + 1`: before
/// a place of the filler that holds 0 there is, no more than `limit` places
/// back, a place of the round that holds 0 after a place that holds none.
proof fn lemma_fill_zero_run(j: nat, limit: nat) -> (c: nat)
    requires
        fill(j, limit) == 0,
    ensures
        c <= j,
        j - c <= limit,
        fill(c, limit) == 0,
        c > 0 ==> fill((c - 1) as nat, limit) == 1,
{
    let p = phase(j + 1, limit);
    lemma_phase_bound(j + 1, limit);
    lemma_phase_back(j + 1, p, limit);
    lemma_phase_back(j + 1, (p - 1) as nat, limit);
    (j + 1 - p) as nat
}

/// Before a place of the filler that holds 1 stand `limit + 1` places that
/// hold 0.
proof fn lemma_fill_one(j: nat, limit: nat)
    requires
        fill(j, limit) == 1,
    ensures
        j >= limit + 1,
        forall|i: nat| j - (limit + 1) <= i < j ==> #[trigger] fill(i, limit) == 0,
{
    assert(phase(j, limit) == limit + 1) by {
        lemma_phase_bound(j, limit);
    }
    lemma_phase_back(j, limit + 1, limit);
    assert forall|i: nat| j - (limit + 1) <= i < j implies #[trigger] fill(i, limit) == 0 by {
        lemma_phase_back(j, (j - (i + 1)) as nat, limit);
    }
}

/// The number that follows a number at the brim is a fitted string of digits
/// that holds no digit too often.
pub proof fn lemma_over_brim_shape(base: nat, x: Seq<u64>, q: nat, by: u64, limit: nat)
    requires
        at_brim(base, x, q, by, limit),
    ensures
        in_range(base, over_brim(x, q, by, limit)),
        over_brim(x, q, by, limit).len() >= 1,
        over_brim(x, q, by, limit) == fitted(
            base,
            value(base, over_brim(x, q, by, limit)),
            x.len(),
        ),
        within_limit(over_brim(x, q, by, limit), limit),
{
    let n = x.len();
    let head = x.take(n - q);
    let top = raised(head, by);
    let y = over_brim(x, q, by, limit);
    let hl = top.len();
    assert(in_range(base, top)) by {
        assert forall|i: int| 0 <= i < top.len() implies (#[trigger] top[i]) < base by {
            if head.len() > 0 && i < head.len() - 1 {
                assert(top[i] == x[i]);
            }
            if head.len() > 0 {
                assert(head.last() == x[n - q - 1]);
            }
        }
    }
    assert(in_range(base, y));
    if head.len() > 0 {
        lemma_fitted_unique(base, y);
    } else {
        lemma_canonical_unique(base, y);
        lemma_canonical(base, value(base, y));
    }
    assert forall|i: int| 0 <= i < y.len() implies #[trigger] repeats_at(y, i) <= limit by {
        if i < hl - 1 {
            assert(y.take(i + 1) =~= x.take(i + 1));
            lemma_repeats_prefix(y, x, i);
        } else if i == hl - 1 {
            if head.len() > 0 {
                let one = raised(head, 1);
                if by == 1 {
                    assert(y.take(i + 1) =~= one.take(i + 1));
                    lemma_repeats_prefix(y, one, i);
                } else {
                    assert(i > 0 && one[i] == one[i - 1]);
                    assert(y[i - 1] == one[i - 1]);
                }
            }
        } else {
            let j = (i - hl) as nat;
            assert(y[i] == fill(j, limit));
            if fill(j, limit) == 1 {
                lemma_fill_one(j, limit);
                assert(y[i - 1] == fill((j - 1) as nat, limit));
            } else {
                let c = lemma_fill_zero_run(j, limit);
                let jb = (hl + c) as int;
                assert(y[jb] == 0);
                if c > 0 {
                    assert(y[jb - 1] == fill((c - 1) as nat, limit));
                } else {
                    assert(y[jb - 1] == top.last());
                }
                lemma_break(y, i, jb);
            }
        }
    }
}

/// How far it is from a number at the brim to the number that follows it.
pub proof fn lemma_over_brim_value(base: nat, x: Seq<u64>, q: nat, by: u64, limit: nat)
    requires
        at_brim(base, x, q, by, limit),
    ensures
        value(base, over_brim(x, q, by, limit)) == value(base, x) + (by - 1) * pow(
            base as int,
            q,
        ) + 2 * value(base, filler(q, limit)) + 1,
        value(base, x) == value(base, x.take(x.len() - q)) * pow(base as int, q) + value(
            base,
            brim(base, q, limit),
        ),
        value(base, brim(base, q, limit)) + value(base, filler(q, limit)) + 1 == pow(
            base as int,
            q,
        ),
{
    let n = x.len();
    let head = x.take(n - q);
    let low = brim(base, q, limit);
    let f = filler(q, limit);
    let full = Seq::new(q, |j: int| (base - 1) as u64);
    let p = pow(base as int, q);
    assert(x =~= head + low);
    lemma_value_concat(base, head, low);
    lemma_value_concat(base, raised(head, by), f);
    lemma_value_raised(base, head, by);
    lemma_value_sum(base, low, f, full);
    lemma_value_full(base, full);
    let hv = value(base, head) as int;
    assert((hv + by) * p == hv * p + by * p) by (nonlinear_arith);
    assert(by * p == (by - 1) * p + p) by (nonlinear_arith);
}

/// A string that ends in `q` digits which stand for more than the greatest
/// string that can follow holds the highest digit too often.
proof fn lemma_above_brim(base: nat, top: Seq<u64>, low: Seq<u64>, q: nat, limit: nat)
    requires
        4 <= base <= 255,
        low.len() == q,
        in_range(base, low),
        value(base, low) > value(base, brim(base, q, limit)),
    ensures
        !within_limit(top + low, limit),
{
    let edge = brim(base, q, limit);
    let u = top + low;
    let d = lemma_first_difference(base, low, edge);
    assert(edge[d] == base - 1 - fill(d as nat, limit));
    assert(fill(d as nat, limit) == 1);
    lemma_fill_one(d as nat, limit);
    let at = top.len() + d;
    assert forall|j: int| at - (limit + 1) <= j <= at implies u[j] == u[at] by {
        let i = j - top.len();
        if i < d {
            assert(low[i] == low.take(d)[i]);
            assert(edge[i] == edge.take(d)[i]);
            assert(fill(i as nat, limit) == 0);
        }
    }
    lemma_run(u, at, limit + 1);
}

/// A string that ends in `q` digits which stand for less than the least
/// string that can follow holds zero too often.
proof fn lemma_below_filler(base: nat, top: Seq<u64>, low: Seq<u64>, q: nat, limit: nat)
    requires
        4 <= base <= 255,
        low.len() == q,
        in_range(base, low),
        value(base, low) < value(base, filler(q, limit)),
    ensures
        !within_limit(top + low, limit),
{
    let least = filler(q, limit);
    let u = top + low;
    let d = lemma_first_difference(base, least, low);
    assert(least[d] == fill(d as nat, limit));
    lemma_fill_one(d as nat, limit);
    let at = top.len() + d;
    assert forall|j: int| at - (limit + 1) <= j <= at implies u[j] == u[at] by {
        let i = j - top.len();
        if i < d {
            assert(low[i] == low.take(d)[i]);
            assert(least[i] == least.take(d)[i]);
            assert(fill(i as nat, limit) == 0);
        }
    }
    lemma_run(u, at, limit + 1);
}

/// Between a number at the brim and the number that follows it, every number
/// holds a digit too often.
pub proof fn lemma_over_brim_gap(base: nat, x: Seq<u64>, q: nat, by: u64, limit: nat)
    requires
        at_brim(base, x, q, by, limit),
    ensures
        forall|w: nat|
            value(base, x) < w < value(base, over_brim(x, q, by, limit)) ==> !#[trigger] allowed(
                base,
                w,
                x.len(),
                limit,
            ),
{
    let n = x.len();
    let head = x.take(n - q);
    let p = pow(base as int, q);
    let hv = value(base, head) as int;
    let f = filler(q, limit);
    lemma_over_brim_value(base, x, q, by, limit);
    lemma_pow_positive(base as int, q);
    lemma_value_concat(base, raised(head, by), f);
    lemma_value_raised(base, head, by);
    lemma_value_raised(base, head, 1);
    assert((hv + 1) * p == hv * p + p) by (nonlinear_arith);
    assert((hv + 2) * p == hv * p + p + p) by (nonlinear_arith);
    assert(in_range(base, head)) by {
        assert forall|i: int| 0 <= i < head.len() implies (#[trigger] head[i]) < base by {
            assert(head[i] == x[i]);
        }
    }
    if head.len() > 0 {
        assert(head.last() == x[n - q - 1]);
    }
    assert forall|w: nat|
        value(base, x) < w < value(base, over_brim(x, q, by, limit)) implies !#[trigger] allowed(
        base,
        w,
        n,
        limit,
    ) by {
        if w < (hv + 1) * p {
            // the head of the number itself, and more after it than may follow
            let low = lemma_split(base, w, head, q);
            let u = head + low;
            lemma_fitted_unique(base, u);
            lemma_above_brim(base, head, low, q, limit);
        } else if by == 2 && w < (hv + 2) * p {
            // the head raised by one, which holds its last digit too often
            let one = raised(head, 1);
            assert(in_range(base, one));
            let low = lemma_split(base, w, one, q);
            let u = one + low;
            lemma_fitted_unique(base, u);
            assert(u.take(one.len() as int) =~= one);
            assert(one.take(one.len() as int) =~= one);
            lemma_repeats_prefix(u, one, one.len() - 1);
        } else {
            // the head of the next number, and less after it than has to follow
            let top = raised(head, by);
            assert(in_range(base, top));
            assert(in_range(base, f));
            lemma_value_bound(base, f);
            assert((hv + by + 1) * p == (hv + by) * p + p) by (nonlinear_arith);
            assert((hv + 2) * p == (hv + 1) * p + p) by (nonlinear_arith);
            let low = lemma_split(base, w, top, q);
            let u = top + low;
            if head.len() > 0 {
                lemma_fitted_unique(base, u);
            } else {
                lemma_canonical_unique(base, u);
                lemma_canonical(base, w);
            }
            assert(u == fitted(base, w, n));
            lemma_below_filler(base, top, low, q, limit);
        }
    }
}

/// In the first round the phase is the index.
pub proof fn lemma_phase_low(i: nat, limit: nat)
    requires
        i <= limit + 1,
    ensures
        phase(i, limit) == i,
    decreases i,
{
    if i > 0 {
        lemma_phase_low((i - 1) as nat, limit);
    }
}

/// A round later the phase is the same.
pub proof fn lemma_phase_round(i: nat, limit: nat)
    ensures
        phase(i + limit + 2, limit) == phase(i, limit),
    decreases i,
{
    if i == 0 {
        lemma_phase_low(limit + 1, limit);
    } else {
        lemma_phase_round((i - 1) as nat, limit);
    }
}

/// A digit that is repeated `k` times or more follows `k` places that all
/// hold it.
pub proof fn lemma_repeats_run(s: Seq<u64>, i: int, k: nat)
    requires
        repeats_at(s, i) >= k,
        k > 0 || 0 <= i < s.len(),
    ensures
        0 <= i - k,
        i < s.len(),
        forall|j: int| i - k <= j <= i ==> s[j] == s[i],
    decreases k,
{
    if k > 0 {
        lemma_repeats_run(s, i - 1, (k - 1) as nat);
    }
}

/// What the number of places at the end that hold `x` says of the string.
pub proof fn lemma_trailing(s: Seq<u64>, x: u64)
    ensures
        trailing(s, x) <= s.len(),
        forall|j: int| s.len() - trailing(s, x) <= j < s.len() ==> s[j] == x,
        trailing(s, x) < s.len() ==> s[s.len() - trailing(s, x) - 1] != x,
    decreases s.len(),
{
    if s.len() > 0 && s.last() == x {
        let r = s.drop_last();
        lemma_trailing(r, x);
        assert forall|j: int| s.len() - trailing(s, x) <= j < s.len() implies s[j] == x by {
            if j < r.len() {
                assert(s[j] == r[j]);
            }
        }
        if trailing(s, x) < s.len() {
            assert(s[s.len() - trailing(s, x) - 1] == r[r.len() - trailing(r, x) - 1]);
        }
    }
}

/// A number that holds no digit too often is at the brim, for some length of
/// the brim and one of the two ways of raising its head.
pub proof fn lemma_find_brim(base: nat, x: Seq<u64>, q: nat, limit: nat) -> (r: (nat, u64))
    requires
        4 <= base <= 255,
        x.len() >= 1,
        in_range(base, x),
        within_limit(x, limit),
        q <= x.len(),
        x.skip(x.len() - q) == brim(base, q, limit),
        q < x.len() ==> x[x.len() - q - 1] != base - 1,
    ensures
        at_brim(base, x, r.0, r.1, limit),
    decreases x.len() - q,
{
    let n = x.len();
    let head = x.take(n - q);
    if head.len() == 0 {
        return (q, 1);
    }
    let g = head.last();
    assert(g == x[n - q - 1]);
    let one = raised(head, 1);
    let at = head.len() - 1;
    if repeats_at(one, at) <= limit {
        return (q, 1);
    }
    if g + 2 < base {
        return (q, 2);
    }
    // the head ends in a full round of the brim
    let round = limit + 2;
    lemma_repeats_run(one, at, limit + 1);
    assert(one[at] == base - 1);
    let more = q + round;
    assert(more <= n);
    assert(x.skip(n - more) =~= brim(base, more, limit)) by {
        assert forall|j: int| 0 <= j < more implies x.skip(n - more)[j] == brim(
            base,
            more,
            limit,
        )[j] by {
            if j < limit + 1 {
                lemma_phase_low((j + 1) as nat, limit);
                assert(x[n - more + j] == one[at - (limit + 1) + j]);
            } else if j == limit + 1 {
                lemma_phase_low(limit + 1, limit);
                assert(phase(limit + 2, limit) == 0);
            } else {
                lemma_phase_round((j - round + 1) as nat, limit);
                assert(x.skip(n - q)[j - round] == x[n - more + j]);
            }
        }
    }
    if more < n {
        if x[n - more - 1] == base - 1 {
            let end = n - more + limit;
            assert forall|j: int| end - (limit + 1) <= j <= end implies x[j] == x[end] by {
                if j >= n - more {
                    assert(x[j] == one[at - (limit + 1) + (j - (n - more))]);
                }
            }
            lemma_run(x, end, limit + 1);
            assert(false);
        }
    }
    lemma_find_brim(base, x, more, limit)
}

/// A number that holds no digit too often is at the brim.
pub proof fn lemma_at_brim(base: nat, x: Seq<u64>, limit: nat) -> (r: (nat, u64))
    requires
        4 <= base <= 255,
        x.len() >= 1,
        in_range(base, x),
        within_limit(x, limit),
    ensures
        at_brim(base, x, r.0, r.1, limit),
{
    let n = x.len();
    let high = (base - 1) as u64;
    let t = trailing(x, high);
    lemma_trailing(x, high);
    if t >= limit + 2 {
        let end = n - 1;
        assert forall|j: int| end - (limit + 1) <= j <= end implies #[trigger] x[j] == x[end] by {}
        lemma_run(x, end, limit + 1);
        assert(false);
    }
    assert(x.skip(n - t) =~= brim(base, t, limit)) by {
        assert forall|j: int| 0 <= j < t implies x.skip(n - t)[j] == brim(base, t, limit)[j] by {
            lemma_phase_low((j + 1) as nat, limit);
        }
    }
    lemma_find_brim(base, x, t, limit)
}

/// The value of a code: its first place, and twice the filler plus one
/// after it.
pub proof fn lemma_code_form_value(base: nat, limit: nat, lead: u64, q: nat)
    requires
        lead <= 2,
    ensures
        value(base, code_form(limit, lead, q)) == lead * pow(base as int, q) + 2 * value(
            base,
            filler(q, limit),
        ) + 1,
{
    let code = code_form(limit, lead, q);
    let f = filler(q, limit);
    if q == 0 {
        lemma_pow0(base as int);
        assert(code =~= seq![(lead + 1) as u64]);
        lemma_value_single(base, (lead + 1) as u64);
        assert(value(base, f) == 0);
    } else {
        let rest = code.drop_first();
        assert(code =~= seq![lead] + rest);
        lemma_value_prepend(base, lead, rest);
        let twice = Seq::new(q, |j: int| (2 * fill(j as nat, limit)) as u64);
        let unit = zeros((q - 1) as nat).push(1u64);
        lemma_value_sum(base, f, f, twice);
        lemma_value_push(base, zeros((q - 1) as nat), 1u64);
        lemma_value_zeros(base, (q - 1) as nat);
        assert(0 * base == 0);
        lemma_value_sum(base, twice, unit, rest);
    }
}

/// The filler of a round or more begins with the zeros and the 1 of a
/// round, and goes on as the filler that is a round shorter.
pub proof fn lemma_filler_round(base: nat, q: nat, limit: nat)
    requires
        q >= limit + 2,
    ensures
        value(base, filler(q, limit)) == pow(base as int, (q - (limit + 2)) as nat) + value(
            base,
            filler((q - (limit + 2)) as nat, limit),
        ),
{
    let round = limit + 2;
    let rest = filler((q - round) as nat, limit);
    let first = zeros(limit + 1).push(1u64);
    assert(filler(q, limit) =~= first + rest) by {
        assert forall|j: int| 0 <= j < q implies filler(q, limit)[j] == (first + rest)[j] by {
            if j < limit + 1 {
                lemma_phase_low((j + 1) as nat, limit);
            } else if j == limit + 1 {
                lemma_phase_low(limit + 1, limit);
                assert(phase(limit + 2, limit) == 0);
            } else {
                lemma_phase_round((j - round + 1) as nat, limit);
            }
        }
    }
    lemma_value_concat(base, first, rest);
    lemma_value_push(base, zeros(limit + 1), 1u64);
    lemma_value_zeros(base, limit + 1);
    assert(0 * base == 0);
    assert(1 * pow(base as int, rest.len()) == pow(base as int, rest.len()));
}

/// The filler of less than a round is all zeros.
pub proof fn lemma_filler_low(base: nat, q: nat, limit: nat)
    requires
        q <= limit + 1,
    ensures
        value(base, filler(q, limit)) == 0,
{
    assert(filler(q, limit) =~= zeros(q)) by {
        assert forall|j: int| 0 <= j < q implies filler(q, limit)[j] == 0 by {
            lemma_phase_low((j + 1) as nat, limit);
        }
    }
    lemma_value_zeros(base, q);
}

/// The step whose increment leads from a number at the brim to the number
/// that follows it.
pub open spec fn brim_step(q: nat, by: u64, limit: nat) -> nat {
    if by == 2 {
        code_step(1, q)
    } else if q <= limit + 1 {
        1
    } else {
        code_step(2, (q - (limit + 2)) as nat)
    }
}

/// The increment of that step is the distance to the number that follows.
pub proof fn lemma_brim_step_value(base: nat, q: nat, by: u64, limit: nat)
    requires
        by == 1 || by == 2,
    ensures
        brim_step(q, by, limit) >= 1,
        value(base, code_at(limit, brim_step(q, by, limit))) == (by - 1) * pow(base as int, q)
            + 2 * value(base, filler(q, limit)) + 1,
{
    if by == 2 {
        lemma_code_at_form(limit, q);
        lemma_code_form_value(base, limit, 1, q);
        assert(1 * pow(base as int, q) == pow(base as int, q));
    } else if q <= limit + 1 {
        lemma_code_at_form(limit, 0);
        lemma_value_single(base, 1u64);
        lemma_filler_low(base, q, limit);
        assert(0 * pow(base as int, q) == 0);
    } else {
        let less = (q - (limit + 2)) as nat;
        lemma_code_at_form(limit, less);
        lemma_code_form_value(base, limit, 2, less);
        lemma_filler_round(base, q, limit);
        assert(0 * pow(base as int, q) == 0);
    }
}

/// The increments grow from step to step.
pub proof fn lemma_code_values_grow(base: nat, limit: nat, j: nat, k: nat)
    requires
        4 <= base <= 255,
        1 <= j < k,
    ensures
        0 < value(base, code_at(limit, j)) < value(base, code_at(limit, k)),
    decreases k,
{
    lemma_code_at_form(limit, 0);
    lemma_value_single(base, 1u64);
    if j + 1 < k {
        lemma_code_values_grow(base, limit, j, (k - 1) as nat);
    }
    // from step k - 1 to step k
    let before = (k - 1) as nat;
    if before == 1 {
        lemma_code_form_value(base, limit, 1, 0);
        lemma_pow0(base as int);
        assert(value(base, filler(0, limit)) == 0);
    } else {
        let q = ((before - 2) / 2) as nat;
        if (before - 2) % 2 == 0 {
            assert(before == code_step(1, q));
            assert(k == code_step(2, q));
            lemma_code_at_form(limit, q);
            lemma_code_form_value(base, limit, 1, q);
            lemma_code_form_value(base, limit, 2, q);
            lemma_pow_positive(base as int, q);
        } else {
            assert(before == code_step(2, q));
            assert(k == code_step(1, q + 1));
            lemma_code_at_form(limit, q);
            lemma_code_at_form(limit, q + 1);
            lemma_code_form_value(base, limit, 2, q);
            lemma_code_form_value(base, limit, 1, q + 1);
            let f = filler(q, limit);
            assert(in_range(base, f));
            lemma_value_bound(base, f);
            lemma_pow1(base as int);
            lemma_pow_adds(base as int, q, 1);
            let p = pow(base as int, q);
            assert(p * base >= 4 * p) by (nonlinear_arith)
                requires
                    base >= 4,
                    p >= 0,
            ;
        }
    }
}

/// From a number that holds no digit too often, stepping lands on the least
/// number above it that holds none too often either, and at the first step
/// whose increment leads to such a number.
pub proof fn lemma_step_lands(base: nat, x: Seq<u64>, limit: nat) -> (k: nat)
    requires
        4 <= base <= 255,
        x.len() >= 1,
        in_range(base, x),
        within_limit(x, limit),
    ensures
        k >= 1,
        least_allowed(
            base,
            value(base, x) + 1,
            x.len(),
            limit,
            value(base, x) + value(base, code_at(limit, k)),
        ),
        forall|j: nat|
            1 <= j < k ==> !#[trigger] allowed(
                base,
                value(base, x) + value(base, code_at(limit, j)),
                x.len(),
                limit,
            ),
{
    let (q, by) = lemma_at_brim(base, x, limit);
    let y = over_brim(x, q, by, limit);
    lemma_over_brim_shape(base, x, q, by, limit);
    lemma_over_brim_value(base, x, q, by, limit);
    lemma_over_brim_gap(base, x, q, by, limit);
    lemma_brim_step_value(base, q, by, limit);
    let k = brim_step(q, by, limit);
    assert(value(base, y) == value(base, x) + value(base, code_at(limit, k)));
    assert forall|j: nat| 1 <= j < k implies !#[trigger] allowed(
        base,
        value(base, x) + value(base, code_at(limit, j)),
        x.len(),
        limit,
    ) by {
        lemma_code_values_grow(base, limit, j, k);
    }
    k
}

} // verus!
