//! What holds of the operations on numbers, whatever the numbers are.

use crate::digits::{Digits, DigitsView};
use crate::ordering::order_of;
use crate::places::{
    all_units, allowed, fitted, least_allowed, lemma_base_one, lemma_canonical,
    lemma_canonical_monotone, lemma_canonical_unique, lemma_fitted, lemma_fitted_unique,
    lemma_value_single, read, spelled, value, within_limit,
};
use crate::step_map::code_at;
use crate::stepping::lemma_step_lands;
use std::cmp::Ordering;
use vstd::arithmetic::power::{lemma_pow0, lemma_pow1, lemma_pow_positive, pow};
use vstd::prelude::*;
use vstd::std_specs::cmp::PartialOrdSpec;

verus! {

/// A text of units that is read as a number and spelled again is the same
/// text, leading zero units included; the empty text comes back as the zero
/// unit.
pub proof fn law_text_round_trip(units: Seq<char>, text: Seq<char>)
    requires
        1 <= units.len() <= 255,
        all_units(units, text),
    ensures
        spelled(units, read(units, text)) == (if text.len() == 0 {
            seq![units[0]]
        } else {
            text
        }),
{
    let back = spelled(units, read(units, text));
    if text.len() == 0 {
        assert(back =~= seq![units[0]]);
    } else {
        assert forall|i: int| 0 <= i < text.len() implies back[i] == text[i] by {
            assert(units.contains(text[i]));
            let at = units.index_of(text[i]);
            assert(0 <= at < units.len() && units[at] == text[i]);
            assert(read(units, text)[i] == at as u64);
        }
        assert(back =~= text);
    }
}

/// A well-formed number stands for a value that its fitted strings hold.
proof fn lemma_view(a: DigitsView)
    requires
        a.wf(),
    ensures
        a.base() >= 2 || a.value() == 0,
        1 <= a.base() <= u64::MAX,
{
    if a.base() == 1 {
        lemma_base_one(a.places);
    }
}

/// The sum of two numbers of one alphabet does not depend on their order.
pub proof fn law_add_commutes(a: DigitsView, b: DigitsView)
    requires
        a.wf(),
        b.wf(),
        a.units == b.units,
    ensures
        a.plus(b) == b.plus(a),
{
}

/// The sum of three numbers of one alphabet does not depend on which two are
/// added first.
pub proof fn law_add_associates(a: DigitsView, b: DigitsView, c: DigitsView)
    requires
        a.wf(),
        b.wf(),
        c.wf(),
        a.units == b.units,
        b.units == c.units,
    ensures
        a.plus(b).plus(c) == a.plus(b.plus(c)),
{
    let base = a.base();
    lemma_view(a);
    lemma_view(b);
    lemma_view(c);
    let va = a.value();
    let vb = b.value();
    let vc = c.value();
    lemma_fitted(base, va + vb, crate::places::longest(a.places.len(), b.places.len()));
    lemma_fitted(base, vb + vc, crate::places::longest(b.places.len(), c.places.len()));
    lemma_canonical_monotone(base, va + vb, va + vb + vc);
    lemma_canonical_monotone(base, vb + vc, va + vb + vc);
    assert(a.plus(b).plus(c).places =~= a.plus(b.plus(c)).places);
}

/// A number times a sum is the sum of the products, for numbers of one
/// alphabet.
pub proof fn law_mul_distributes(a: DigitsView, b: DigitsView, c: DigitsView)
    requires
        a.wf(),
        b.wf(),
        c.wf(),
        a.units == b.units,
        b.units == c.units,
    ensures
        a.times(b.plus(c)) == a.times(b).plus(a.times(c)),
{
    let base = a.base();
    lemma_view(a);
    lemma_view(b);
    lemma_view(c);
    let va = a.value();
    let vb = b.value();
    let vc = c.value();
    lemma_fitted(base, vb + vc, crate::places::longest(b.places.len(), c.places.len()));
    assert(va * (vb + vc) == va * vb + va * vc) by (nonlinear_arith);
    if base == 1 {
        assert(va * vb == 0 && va * vc == 0) by (nonlinear_arith)
            requires
                va == 0,
        ;
    }
    lemma_canonical(base, va * vb);
    lemma_canonical(base, va * vc);
    lemma_canonical_monotone(base, va * vb, va * vb + va * vc);
    lemma_canonical_monotone(base, va * vc, va * vb + va * vc);
    assert(a.times(b.plus(c)).places =~= a.times(b).plus(a.times(c)).places);
}

/// The power zero of a number is one, the power one is the number as it is,
/// and every power stands for the power of the value.
pub proof fn law_power(a: DigitsView, e: nat)
    requires
        a.wf(),
        a.base() >= 2,
    ensures
        a.power(0).places == seq![1u64],
        a.power(0).value() == 1,
        a.power(1) == a,
        a.power(e).value() == pow(a.value() as int, e),
{
    lemma_value_single(a.base(), 1u64);
    lemma_pow0(a.value() as int);
    lemma_pow1(a.value() as int);
    if e >= 2 {
        if a.value() > 0 {
            lemma_pow_positive(a.value() as int, e);
        } else {
            vstd::arithmetic::power::lemma0_pow(e);
        }
        lemma_canonical(a.base(), pow(a.value() as int, e) as nat);
    }
}

/// The number before the number after a number stands for the same value,
/// and is the same number where the number after it needed no digit more. The
/// number before zero is zero as it is.
pub proof fn law_before_after(a: DigitsView)
    requires
        a.wf(),
        a.base() >= 2,
    ensures
        a.after().before().value() == a.value(),
        a.after().places.len() == a.places.len() ==> a.after().before() == a,
        a.value() == 0 ==> a.before() == a,
{
    let base = a.base();
    let v = a.value();
    lemma_fitted(base, v + 1, a.places.len());
    let next = a.after();
    lemma_fitted(base, v, next.places.len());
    if next.places.len() == a.places.len() {
        lemma_fitted_unique(base, a.places);
        assert(next.before().places =~= a.places);
    }
}

/// A number written in another alphabet and then in its own again stands for
/// the same value, and is the same number where it has no leading zeros.
pub proof fn law_rebase_round_trip(a: DigitsView, units: Seq<char>)
    requires
        a.wf(),
        2 <= units.len() <= 255,
    ensures
        a.rebased(units).value() == a.value(),
        a.rebased(units).rebased(a.units).value() == a.value(),
        a.places[0] != 0 || a.places.len() == 1 ==> a.rebased(units).rebased(a.units) == a,
{
    lemma_view(a);
    let there = a.rebased(units);
    lemma_canonical(units.len(), a.value());
    lemma_canonical(a.base(), a.value());
    if a.places[0] != 0 || a.places.len() == 1 {
        lemma_canonical_unique(a.base(), a.places);
        assert(there.rebased(a.units).places =~= a.places);
    }
}

/// Two numbers of one alphabet are always ordered, and as their values are:
/// the order is a strict total order of the values.
pub proof fn law_order_by_value(a: Digits, b: Digits)
    requires
        a@.units == b@.units,
    ensures
        a.partial_cmp_spec(&b) == Some(order_of(a@.value(), b@.value())),
        a.partial_cmp_spec(&b) == Some(Ordering::Less) <==> a@.value() < b@.value(),
        a.partial_cmp_spec(&b) == Some(Ordering::Equal) <==> a@.value() == b@.value(),
        a.partial_cmp_spec(&b) == Some(Ordering::Greater) <==> a@.value() > b@.value(),
        a.partial_cmp_spec(&b) == Some(Ordering::Less) <==> b.partial_cmp_spec(&a) == Some(
            Ordering::Greater,
        ),
        !(a.partial_cmp_spec(&a) == Some(Ordering::Less)),
{
}

/// Where one number is less than a second, and that less than a third, of
/// one alphabet, the first is less than the third.
pub proof fn law_order_transitive(a: Digits, b: Digits, c: Digits)
    requires
        a@.units == b@.units,
        b@.units == c@.units,
        a.partial_cmp_spec(&b) == Some(Ordering::Less),
        b.partial_cmp_spec(&c) == Some(Ordering::Less),
    ensures
        a.partial_cmp_spec(&c) == Some(Ordering::Less),
{
}

/// From a number that holds no digit more than `limit` times in a row after
/// itself, some step of the generator lands, and the first that does lands
/// on the least number above it that holds none more often either.
pub proof fn law_step_lands(a: DigitsView, limit: nat) -> (k: nat)
    requires
        a.wf(),
        a.base() > 3,
        within_limit(a.places, limit),
    ensures
        a.first_landing(limit, k),
        a.step_sum(limit, k) == fitted(
            a.base(),
            a.value() + value(a.base(), code_at(limit, k)),
            a.places.len(),
        ),
        least_allowed(
            a.base(),
            a.value() + 1,
            a.places.len(),
            limit,
            a.value() + value(a.base(), code_at(limit, k)),
        ),
{
    let k = lemma_step_lands(a.base(), a.places, limit);
    assert forall|j: nat| 1 <= j < k implies !#[trigger] a.lands(limit, j) by {
        assert(!allowed(
            a.base(),
            a.value() + value(a.base(), code_at(limit, j)),
            a.places.len(),
            limit,
        ));
    }
    k
}

} // verus!
