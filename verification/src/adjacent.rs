//! Runs of a repeated digit, and stepping through the numbers that hold no
//! run longer than a limit allows.

use crate::arith::{add_places, pred_places};
use crate::digits::{copy_of, Digits, DigitsView};
use crate::laws::law_step_lands;
use crate::places::{
    allowed, bumped, canonical, fitted, in_range, least_allowed, lemma_bumped, lemma_canonical,
    lemma_fitted_unique, lemma_value_bound, lemma_value_padded, lemma_value_single, lemma_zigzag,
    repeats_at, trailing, value, within_limit, zeros, zigzag,
};
use crate::step_map::{code_at, StepMap};
use vstd::prelude::*;

verus! {

/// The first place whose digit is repeated more than `limit` times before it,
/// or `None` where there is no such place.
pub(crate) fn first_violation(v: &Vec<u64>, limit: usize) -> (r: Option<usize>)
    ensures
        match r {
            Some(i) => {
                &&& 0 < i < v@.len()
                &&& repeats_at(v@, i as int) > limit
                &&& forall|j: int| 0 <= j < i ==> #[trigger] repeats_at(v@, j) <= limit
            },
            None => within_limit(v@, limit as nat),
        },
{
    let n = v.len();
    if n == 0 {
        return None;
    }
    let mut count: usize = 0;
    let mut i: usize = 1;
    while i < n
        invariant
            n == v@.len(),
            1 <= i <= n,
            count == repeats_at(v@, i - 1),
            count < i,
            forall|j: int| 0 <= j < i ==> #[trigger] repeats_at(v@, j) <= limit,
        decreases n - i,
    {
        if v[i] == v[i - 1] {
            count += 1;
        } else {
            count = 0;
        }
        if count > limit {
            return Some(i);
        }
        i += 1;
    }
    None
}

/// The digits up to place `i` raised by one, as a number, and zeros after.
fn bump(v: &Vec<u64>, i: usize, base: u64) -> (r: Vec<u64>)
    requires
        2 <= base <= 255,
        in_range(base as nat, v@),
        0 < i < v@.len(),
    ensures
        r@ == bumped(base as nat, v@, i as int),
{
    let n = v.len();
    let mut head: Vec<u64> = Vec::new();
    let mut j: usize = 0;
    while j <= i
        invariant
            n == v@.len(),
            i < n,
            j <= i + 1,
            head@ == v@.take(j as int),
        decreases i + 1 - j,
    {
        head.push(v[j]);
        assert(head@ =~= v@.take(j + 1));
        j += 1;
    }
    let mut one: Vec<u64> = Vec::new();
    one.push(1);
    proof {
        assert(one@ =~= seq![1u64]);
        lemma_value_single(base as nat, 1u64);
    }
    let mut r = add_places(&head, &one, base);
    let ghost more = r@;
    let mut k: usize = i + 1;
    while k < n
        invariant
            i + 1 <= k <= n,
            r@ == more + zeros((k - i - 1) as nat),
        decreases n - k,
    {
        r.push(0);
        assert(r@ =~= more + zeros((k + 1 - i - 1) as nat));
        k += 1;
    }
    assert(more + zeros(0) =~= more);
    r
}

impl DigitsView {
    /// The number plus the increment that the generator hands out at step `k`
    /// under the limit, with the length of the number kept unless the sum
    /// needs more digits.
    pub open spec fn step_sum(self, limit: nat, k: nat) -> Seq<u64> {
        fitted(
            self.base(),
            self.value() + value(self.base(), code_at(limit, k)),
            self.places.len(),
        )
    }

    /// Step `k` of the generator leads from this number to one that holds no
    /// digit more than `limit` times in a row after itself.
    pub open spec fn lands(self, limit: nat, k: nat) -> bool {
        k >= 1 && within_limit(self.step_sum(limit, k), limit)
    }

    /// Step `k` is the first that [lands](DigitsView::lands).
    pub open spec fn first_landing(self, limit: nat, k: nat) -> bool {
        &&& self.lands(limit, k)
        &&& forall|j: nat| 1 <= j < k ==> !#[trigger] self.lands(limit, j)
    }
}

impl Digits {
    /// Whether no digit is repeated more than `adjacent` times in a row.
    pub fn is_valid_adjacent(&self, adjacent: usize) -> (r: bool)
        ensures
            r == within_limit(self@.places, adjacent as nat),
    {
        first_violation(self.places_ref(), adjacent).is_none()
    }

    /// The most repeats of a digit in a row: the length of the longest run of
    /// one digit, less one.
    pub fn max_adjacent(&self) -> (r: usize)
        ensures
            within_limit(self@.places, r as nat),
            exists|i: int| 0 <= i < self@.places.len() && repeats_at(self@.places, i) == r,
    {
        let v = self.places_ref();
        let n = v.len();
        let mut most: usize = 0;
        let mut count: usize = 0;
        let ghost mut at: int = 0;
        let mut i: usize = 1;
        while i < n
            invariant
                n == v@.len(),
                n >= 1,
                1 <= i <= n,
                count == repeats_at(v@, i - 1),
                count < i,
                most < i,
                0 <= at < i,
                repeats_at(v@, at) == most,
                forall|j: int| 0 <= j < i ==> #[trigger] repeats_at(v@, j) <= most,
            decreases n - i,
        {
            if v[i] == v[i - 1] {
                count += 1;
            } else {
                count = 0;
            }
            if count > most {
                most = count;
                proof {
                    at = i as int;
                }
            }
            i += 1;
        }
        most
    }

    /// The number of digits at the end, least significant side, that are the
    /// digit `character_index`.
    pub fn rcount(&self, character_index: u8) -> (r: usize)
        ensures
            r == trailing(self@.places, character_index as u64),
    {
        let v = self.places_ref();
        let n = v.len();
        let x = character_index as u64;
        let mut count: usize = 0;
        assert(v@.take(n as int) =~= v@);
        while count < n && v[n - 1 - count] == x
            invariant
                n == v@.len(),
                count <= n,
                trailing(v@, x) == count + trailing(v@.take(n - count), x),
            decreases n - count,
        {
            proof {
                let rest = v@.take(n - count);
                assert(rest.last() == x);
                assert(rest.drop_last() =~= v@.take(n - count - 1));
            }
            count += 1;
        }
        proof {
            let rest = v@.take(n - count);
            if count < n {
                assert(rest.last() != x);
            }
        }
        count
    }
}

impl Digits {
    /// Makes the number ready for stepping. A number that holds no digit more
    /// than `adjacent` times in a row after itself stays as it is. Any other
    /// becomes the number before the least one from it on that holds none, so
    /// that one step leads there.
    pub fn prep_non_adjacent(&mut self, adjacent: usize) -> (r: Digits)
        requires
            old(self)@.base() > 3,
        ensures
            final(self).wf(),
            final(self)@.units == old(self)@.units,
            within_limit(old(self)@.places, adjacent as nat) ==> final(self)@.places == old(
                self
            )@.places,
            !within_limit(old(self)@.places, adjacent as nat) ==> {
                let target = fitted(
                    old(self)@.base(),
                    final(self)@.value() + 1,
                    old(self)@.places.len(),
                );
                &&& least_allowed(
                    old(self)@.base(),
                    old(self)@.value(),
                    old(self)@.places.len(),
                    adjacent as nat,
                    final(self)@.value() + 1,
                )
                &&& final(self)@.places == fitted(
                    old(self)@.base(),
                    final(self)@.value(),
                    target.len(),
                )
                &&& final(self)@.places.len() == target.len()
            },
            r@ == final(self)@,
            r.wf(),
    {
        proof {
            use_type_invariant(&*self);
        }
        if self.is_valid_adjacent(adjacent) {
            return self.clone();
        }
        let base = self.radix();
        let ghost bn = base as nat;
        let ghost start = self@.places;
        let ghost from = self@.value();
        let ghost n = start.len();
        let ghost limit = adjacent as nat;
        let ghost top = value(bn, zigzag(n + 1));
        let mut v = copy_of(self.places_ref());
        proof {
            lemma_fitted_unique(bn, start);
            lemma_zigzag(bn, n + 1, limit);
            lemma_value_bound(bn, start);
            assert(fitted(bn, top, n) == zigzag(n + 1));
            assert(allowed(bn, top, n, limit));
        }
        let mut at = first_violation(&v, adjacent);
        while at.is_some()
            invariant
                4 <= base <= 255,
                bn == base as nat,
                n >= 1,
                limit == adjacent as nat,
                v@.len() >= 1,
                in_range(bn, v@),
                v@ == fitted(bn, value(bn, v@), n),
                from <= value(bn, v@) <= top,
                allowed(bn, top, n, limit),
                forall|w: nat| from <= w < value(bn, v@) ==> !#[trigger] allowed(bn, w, n, limit),
                match at {
                    Some(i) => {
                        &&& 0 < i < v@.len()
                        &&& repeats_at(v@, i as int) > limit
                    },
                    None => within_limit(v@, limit),
                },
            decreases top - value(bn, v@),
        {
            let i = at.unwrap();
            proof {
                lemma_bumped(bn, v@, i as int, n, limit);
            }
            v = bump(&v, i, base);
            at = first_violation(&v, adjacent);
        }
        proof {
            assert(allowed(bn, value(bn, v@), n, limit));
            if value(bn, v@) == from {
                assert(v@ == start);
            }
            lemma_canonical(bn, value(bn, v@));
        }
        let less = pred_places(&v, base);
        proof {
            let w = (value(bn, v@) - 1) as nat;
            lemma_canonical(bn, w);
            lemma_value_padded(bn, canonical(bn, w), v@.len());
        }
        self.set_places(less);
        self.clone()
    }

    /// Steps to the first sum of this number and an increment of the generator
    /// that holds no digit more than `adjacent` times in a row after itself.
    /// Some step has to lead to such a sum. From a number that was made ready
    /// by [`Digits::prep_non_adjacent`] one does: the first step where the
    /// number was changed, and the step that [`law_step_lands`] names where it
    /// was not. [`Digits::step_non_adjacent_within`] is the same with a bound
    /// on the steps and without that demand.
    pub fn step_non_adjacent(&mut self, adjacent: usize) -> (r: Digits)
        requires
            old(self)@.base() > 3,
            adjacent <= 255,
            exists|k: nat| old(self)@.lands(adjacent as nat, k),
        ensures
            final(self).wf(),
            final(self)@.units == old(self)@.units,
            exists|k: nat|
                {
                    &&& old(self)@.first_landing(adjacent as nat, k)
                    &&& final(self)@.places == old(self)@.step_sum(adjacent as nat, k)
                },
            within_limit(final(self)@.places, adjacent as nat),
            r@ == final(self)@,
            r.wf(),
    {
        let ghost start = self@;
        let ghost limit = adjacent as nat;
        let ghost goal = choose|k: nat| start.lands(limit, k);
        proof {
            use_type_invariant(&*self);
        }
        let mut step_map = StepMap::new(self.zero(), adjacent as u8);
        let mut landed = self.clone();
        let mut found = false;
        let ghost mut k: nat = 0;
        while !found
            invariant
                self@ == start,
                start.wf(),
                start.base() > 3,
                limit == adjacent as nat,
                step_map.code() == code_at(limit, k),
                step_map.limit() == limit,
                step_map.units() == start.units,
                start.lands(limit, goal),
                !found ==> k < goal,
                !found ==> forall|j: nat| 1 <= j <= k ==> !#[trigger] start.lands(limit, j),
                found ==> start.first_landing(limit, k),
                found ==> landed@.places == start.step_sum(limit, k),
                landed@.units == start.units,
                landed.wf(),
            decreases
                    (if found {
                        0
                    } else {
                        goal - k
                    }),
        {
            let increment = step_map.next().unwrap();
            proof {
                k = k + 1;
            }
            let mut builder = self.clone();
            let sum = builder.mut_add(increment);
            if sum.is_valid_adjacent(adjacent) {
                found = true;
                landed = sum;
            }
        }
        proof {
            use_type_invariant(&landed);
        }
        self.set_places(copy_of(landed.places_ref()));
        self.clone()
    }

    /// Steps as [`Digits::step_non_adjacent`] does, but gives up after `tries`
    /// increments: then the number stays as it is and `None` is returned.
    pub fn step_non_adjacent_within(
        &mut self,
        adjacent: usize,
        tries: usize,
    ) -> (r: Option<Digits>)
        requires
            old(self)@.base() > 3,
            adjacent <= 255,
        ensures
            final(self).wf(),
            final(self)@.units == old(self)@.units,
            match r {
                Some(d) => {
                    &&& exists|k: nat|
                        {
                            &&& 1 <= k <= tries
                            &&& old(self)@.first_landing(adjacent as nat, k)
                            &&& final(self)@.places == old(self)@.step_sum(adjacent as nat, k)
                        }
                    &&& within_limit(final(self)@.places, adjacent as nat)
                    &&& d@ == final(self)@
                    &&& d.wf()
                },
                None => {
                    &&& final(self)@ == old(self)@
                    &&& forall|k: nat|
                        1 <= k <= tries ==> !#[trigger] old(self)@.lands(adjacent as nat, k)
                },
            },
    {
        let ghost start = self@;
        let ghost limit = adjacent as nat;
        proof {
            use_type_invariant(&*self);
        }
        let mut step_map = StepMap::new(self.zero(), adjacent as u8);
        let mut i: usize = 0;
        while i < tries
            invariant
                self@ == start,
                start == old(self)@,
                start.wf(),
                start.base() > 3,
                limit == adjacent as nat,
                i <= tries,
                step_map.code() == code_at(limit, i as nat),
                step_map.limit() == limit,
                step_map.units() == start.units,
                forall|j: nat| 1 <= j <= i ==> !#[trigger] start.lands(limit, j),
            decreases tries - i,
        {
            let increment = step_map.next().unwrap();
            i += 1;
            let mut builder = self.clone();
            let sum = builder.mut_add(increment);
            if sum.is_valid_adjacent(adjacent) {
                proof {
                    use_type_invariant(&sum);
                    assert(start.first_landing(limit, i as nat));
                }
                self.set_places(copy_of(sum.places_ref()));
                return Some(sum);
            }
        }
        proof {
            use_type_invariant(&*self);
        }
        None
    }

    /// The next number that holds no digit more than `adjacent` times in a row
    /// after itself: the least such number above this one, with the length of
    /// this one unless it needs a digit more. The number is made ready and
    /// then stepped.
    pub fn next_non_adjacent(&mut self, adjacent: usize) -> (r: Digits)
        requires
            old(self)@.base() > 3,
            adjacent <= 255,
        ensures
            final(self).wf(),
            final(self)@.units == old(self)@.units,
            within_limit(final(self)@.places, adjacent as nat),
            least_allowed(
                old(self)@.base(),
                old(self)@.value() + 1,
                old(self)@.places.len(),
                adjacent as nat,
                final(self)@.value(),
            ),
            final(self)@.places == fitted(
                old(self)@.base(),
                final(self)@.value(),
                old(self)@.places.len(),
            ),
            r@ == final(self)@,
            r.wf(),
    {
        let ghost start = self@;
        let ghost limit = adjacent as nat;
        let ghost bn = start.base();
        let ghost n = start.places.len();
        proof {
            use_type_invariant(&*self);
        }
        self.prep_non_adjacent(adjacent);
        let ghost ready = self@;
        let ghost first: nat = 1;
        proof {
            if within_limit(start.places, limit) {
                first = law_step_lands(start, limit);
            } else {
                let w = ready.value() + 1;
                let target = fitted(bn, w, n);
                assert(code_at(limit, 1) =~= seq![1u64]) by {
                    assert(code_at(limit, 0) =~= Seq::<u64>::empty());
                }
                lemma_value_single(bn, 1u64);
                lemma_canonical(bn, w);
                lemma_value_padded(bn, canonical(bn, w), n);
                assert(fitted(bn, w, target.len()) =~= target);
                assert(ready.step_sum(limit, 1) == target);
                assert(ready.lands(limit, 1));
                lemma_fitted_unique(bn, start.places);
            }
            assert(ready.first_landing(limit, first));
        }
        let r = self.step_non_adjacent(adjacent);
        proof {
            let k = choose|k: nat|
                ready.first_landing(limit, k) && self@.places == ready.step_sum(limit, k);
            assert(k == first) by {
                if k < first {
                    assert(ready.lands(limit, k));
                }
                if first < k {
                    assert(ready.lands(limit, first));
                }
            }
            let w = ready.value() + value(bn, code_at(limit, first));
            lemma_canonical(bn, w);
            lemma_value_padded(bn, canonical(bn, w), ready.places.len());
            lemma_value_padded(bn, canonical(bn, w), n);
        }
        r
    }
}

} // verus!
