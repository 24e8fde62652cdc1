//! The generator of the increments by which stepping moves on.
//!
//! Stepping adds to a number, one after the other, the increments that this
//! generator hands out, until the sum holds no symbol more often in a row than
//! the limit allows. The increments are kept as a code: a string of the places
//! 0 to 3, most significant first.

use crate::digits::{copy_of, Digits};
use crate::front::{shift, unshift};
use crate::places::trailing;
use vstd::prelude::*;

verus! {

/// The strings that the generator passes through: the empty one it starts
/// with, the short ones `1`, `2`, `3`, `11`, `21`, and from three places on
/// those of the places 0 to 3 that begin with 1 or 2 and end in `01`, `03` or
/// `21`.
pub open spec fn is_code(code: Seq<u64>) -> bool {
    if code.len() == 0 {
        true
    } else if code.len() == 1 {
        1 <= code[0] <= 3
    } else if code.len() == 2 {
        (code[0] == 1 || code[0] == 2) && code[1] == 1
    } else {
        let a = code[code.len() - 2];
        let b = code[code.len() - 1];
        &&& code[0] == 1 || code[0] == 2
        &&& (a == 0 && b == 1) || (a == 0 && b == 3) || (a == 2 && b == 1)
        &&& forall|i: int| 0 <= i < code.len() ==> (#[trigger] code[i]) <= 3
    }
}

/// The end of the code that follows a code of three or more places that begins
/// with 2; `room` is the limit plus one, the most zero places that may stand
/// in a row.
///
/// - `..01` loses its last place, gains a 0 while fewer than `room` zeros end
///   it, and then gains 1 if fewer than `room` zeros end it, else 3.
/// - `..03` becomes `..021`.
/// - `..21` loses both places, gains `20` if `room` zeros end it, else `0`, and
///   then gains 3 where the limit is zero, else 1.
pub open spec fn next_tail(code: Seq<u64>, room: nat) -> Seq<u64> {
    let a = code[code.len() - 2];
    let b = code[code.len() - 1];
    if a == 0 && b == 1 {
        let cut = code.drop_last();
        let filled = if trailing(cut, 0) < room {
            cut.push(0)
        } else {
            cut
        };
        if trailing(filled, 0) < room {
            filled.push(1)
        } else {
            filled.push(3)
        }
    } else if a == 0 && b == 3 {
        code.drop_last().push(2).push(1)
    } else {
        let cut = code.drop_last().drop_last();
        let filled = if trailing(cut, 0) == room {
            cut.push(2).push(0)
        } else {
            cut.push(0)
        };
        if room == 1 {
            filled.push(3)
        } else {
            filled.push(1)
        }
    }
}

/// The code that follows a code under a limit.
///
/// The empty code is followed by `1`, then `2`, `3`, `11`, `21`, and `21` by
/// `103` where the limit is zero and by `101` otherwise. A longer code that
/// begins with 1 is followed by the same code beginning with 2; one that begins
/// with 2 has its end changed as [`next_tail`] says and begins with 1 again.
pub open spec fn next_code(code: Seq<u64>, limit: nat) -> Seq<u64> {
    if code.len() == 0 {
        seq![1u64]
    } else if code.len() == 1 {
        if code[0] == 1 {
            seq![2u64]
        } else if code[0] == 2 {
            seq![3u64]
        } else {
            seq![1u64, 1u64]
        }
    } else if code.len() == 2 {
        if code[0] == 1 {
            seq![2u64, 1u64]
        } else if limit == 0 {
            seq![1u64, 0u64, 3u64]
        } else {
            seq![1u64, 0u64, 1u64]
        }
    } else if code[0] == 1 {
        seq![2u64] + code.drop_first()
    } else {
        seq![1u64] + next_tail(code, limit + 1).drop_first()
    }
}

/// The code after `k` steps from the empty code.
pub open spec fn code_at(limit: nat, k: nat) -> Seq<u64>
    decreases k,
{
    if k == 0 {
        Seq::<u64>::empty()
    } else {
        next_code(code_at(limit, (k - 1) as nat), limit)
    }
}

/// A code is followed by a code.
pub proof fn lemma_next_code_is_code(code: Seq<u64>, limit: nat)
    requires
        is_code(code),
    ensures
        is_code(next_code(code, limit)),
        next_code(code, limit).len() >= 1,
        forall|i: int|
            0 <= i < next_code(code, limit).len() ==> (#[trigger] next_code(code, limit)[i]) <= 3,
{
    let next = next_code(code, limit);
    if code.len() >= 3 {
        if code[0] == 1 {
            assert(next.len() == code.len());
            assert forall|i: int| 0 <= i < next.len() implies (#[trigger] next[i]) <= 3 by {
                if i > 0 {
                    assert(next[i] == code[i]);
                }
            }
            assert(next[next.len() - 1] == code[code.len() - 1]);
            assert(next[next.len() - 2] == code[code.len() - 2]);
        } else {
            let tail = next_tail(code, limit + 1);
            assert(tail.len() >= 3);
            assert(forall|i: int| 0 <= i < tail.len() ==> (#[trigger] tail[i]) <= 3);
            assert(next.len() == tail.len());
            assert forall|i: int| 0 <= i < next.len() implies (#[trigger] next[i]) <= 3 by {
                if i > 0 {
                    assert(next[i] == tail[i]);
                }
            }
            assert(next[next.len() - 1] == tail[tail.len() - 1]);
            assert(next[next.len() - 2] == tail[tail.len() - 2]);
        }
    }
}

/// The generator: the alphabet in which it hands out its increments, the code
/// of the increment it handed out last, and the limit.
#[derive(Debug)]
pub struct StepMap {
    digits: Digits,
    base_map: Vec<u64>,
    limit: u8,
}

impl StepMap {
    /// The code of the increment that was handed out last; empty at the start.
    pub closed spec fn code(&self) -> Seq<u64> {
        self.base_map@
    }

    /// The most repeats of a symbol that stepping allows.
    pub closed spec fn limit(&self) -> nat {
        self.limit as nat
    }

    /// The units of the alphabet of the increments.
    pub closed spec fn units(&self) -> Seq<char> {
        self.digits@.units
    }

    /// The alphabet has more than three units, so that the places of a code
    /// are digits of it, and the code is one that the generator passes
    /// through. Every value of the type is so.
    #[verifier::type_invariant]
    pub closed spec fn wf(&self) -> bool {
        &&& self.digits.wf()
        &&& self.digits@.base() > 3
        &&& is_code(self.base_map@)
    }

    /// A generator at its start, for increments in the alphabet of `d`.
    pub fn new(d: Digits, n: u8) -> (r: StepMap)
        requires
            d@.base() > 3,
        ensures
            r.code() == Seq::<u64>::empty(),
            r.limit() == n,
            r.units() == d@.units,
    {
        proof {
            use_type_invariant(&d);
        }
        StepMap { digits: d, base_map: Vec::new(), limit: n }
    }

    /// Moves on to the next code and hands out the increment with its places.
    pub fn next(&mut self) -> (r: Option<Digits>)
        ensures
            final(self).limit() == old(self).limit(),
            final(self).units() == old(self).units(),
            final(self).code() == next_code(old(self).code(), old(self).limit()),
            r matches Some(d) && d.wf() && d@.units == old(self).units() && d@.places == next_code(
                old(self).code(),
                old(self).limit(),
            ),
    {
        proof {
            use_type_invariant(&*self);
        }
        let ghost code = self.base_map@;
        let ghost limit = self.limit as nat;
        let n = self.base_map.len();
        let room: usize = self.limit as usize + 1;
        let mut next_map: Vec<u64>;
        if n == 0 {
            next_map = vec![1];
        } else if n == 1 {
            let only = self.base_map[0];
            if only == 1 {
                next_map = vec![2];
            } else if only == 2 {
                next_map = vec![3];
            } else {
                next_map = vec![1, 1];
            }
        } else if n == 2 {
            if self.base_map[0] == 1 {
                next_map = vec![2, 1];
            } else if self.limit == 0 {
                next_map = vec![1, 0, 3];
            } else {
                next_map = vec![1, 0, 1];
            }
        } else if self.base_map[0] == 1 {
            next_map = copy_of(&self.base_map);
            let _ = shift(&mut next_map);
            unshift(&mut next_map, 2);
        } else {
            next_map = copy_of(&self.base_map);
            let a = self.base_map[n - 2];
            let b = self.base_map[n - 1];
            if a == 0 && b == 1 {
                next_map.pop();
                if end_zero_qty(&next_map) < room {
                    next_map.push(0);
                }
                if end_zero_qty(&next_map) < room {
                    next_map.push(1);
                } else {
                    next_map.push(3);
                }
            } else if a == 0 && b == 3 {
                next_map.pop();
                next_map.push(2);
                next_map.push(1);
            } else {
                next_map.pop();
                next_map.pop();
                if end_zero_qty(&next_map) == room {
                    next_map.push(2);
                    next_map.push(0);
                } else {
                    next_map.push(0);
                }
                if self.limit == 0 {
                    next_map.push(3);
                } else {
                    next_map.push(1);
                }
            }
            assert(next_map@ =~= next_tail(code, limit + 1));
            let _ = shift(&mut next_map);
            unshift(&mut next_map, 1);
        }
        assert(next_map@ =~= next_code(code, limit));
        proof {
            lemma_next_code_is_code(code, limit);
        }
        self.base_map = next_map;
        self.digits.new_mapped(self.base_map.as_slice()).ok()
    }
}

/// The number of zero places at the end of the vector.
fn end_zero_qty(v: &Vec<u64>) -> (count: usize)
    ensures
        count == trailing(v@, 0),
{
    let mut count: usize = 0;
    assert(v@.take(v@.len() as int) =~= v@);
    while count < v.len() && v[v.len() - 1 - count] == 0
        invariant
            count <= v@.len(),
            trailing(v@, 0) == count + trailing(v@.take(v@.len() - count), 0),
        decreases v@.len() - count,
    {
        proof {
            let rest = v@.take(v@.len() - count);
            assert(rest.last() == 0);
            assert(rest.drop_last() =~= v@.take(v@.len() - count - 1));
        }
        count += 1;
    }
    proof {
        assert(v@.take(v@.len() as int) =~= v@);
        let rest = v@.take(v@.len() - count);
        if count < v@.len() {
            assert(rest.last() != 0);
        }
    }
    count
}

} // verus!
