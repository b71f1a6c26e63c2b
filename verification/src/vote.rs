//! The `Vote` value object: one numeric estimate restricted to a fixed
//! allowed set, plus the rule that picks the allowed value closest to the
//! average of a round's votes.

use vstd::prelude::*;

verus! {

/// The fixed set of allowed estimate values.
pub open spec fn is_allowed_value(v: int) -> bool {
    v == 0 || v == 1 || v == 2 || v == 3 || v == 5 || v == 8 || v == 13 || v == 21 || v == 40
        || v == 100
}

/// The allowed estimate values, in ascending order.
pub open spec fn allowed_seq() -> Seq<i32> {
    seq![0i32, 1i32, 2i32, 3i32, 5i32, 8i32, 13i32, 21i32, 40i32, 100i32]
}

/// One numeric estimate; the wrapped value is always a member of the
/// allowed set.
#[derive(Clone, Copy, PartialEq, Eq, Structural, Debug)]
pub struct Vote(i32);

impl View for Vote {
    type V = int;

    closed spec fn view(&self) -> int {
        self.0 as int
    }
}

impl Vote {
    #[verifier::type_invariant]
    pub(crate) open spec fn inv(self) -> bool {
        is_allowed_value(self@)
    }

    pub fn new(value: i32) -> (r: Result<Vote, String>)
        ensures
            is_allowed_value(value as int) <==> (r matches Ok(v) && v@ == value as int),
            !is_allowed_value(value as int) <==> r is Err,
            r matches Err(m) ==> m@ == "Not allowed value"@,
    {
        if value == 0 || value == 1 || value == 2 || value == 3 || value == 5 || value == 8
            || value == 13 || value == 21 || value == 40 || value == 100 {
            Ok(Vote(value))
        } else {
            Err(String::from_str("Not allowed value"))
        }
    }

    pub fn value(&self) -> (r: i32)
        ensures
            r as int == self@,
            is_allowed_value(r as int),
    {
        proof {
            use_type_invariant(*self);
        }
        self.0
    }

    pub fn get_allowed_values() -> (r: [i32; 10])
        ensures
            r@ == allowed_seq(),
    {
        let r = [0i32, 1i32, 2i32, 3i32, 5i32, 8i32, 13i32, 21i32, 40i32, 100i32];
        proof {
            assert(r@ =~= allowed_seq());
        }
        r
    }

    pub fn get_allowed_votes() -> (r: [Vote; 10])
        ensures
            forall|i: int| 0 <= i < 10 ==> #[trigger] r@[i]@ == allowed_seq()[i] as int,
    {
        let r = [
            Vote(0),
            Vote(1),
            Vote(2),
            Vote(3),
            Vote(5),
            Vote(8),
            Vote(13),
            Vote(21),
            Vote(40),
            Vote(100),
        ];
        proof {
            assert(forall|i: int| 0 <= i < 10 ==> #[trigger] r@[i]@ == allowed_seq()[i] as int)
                by {
                assert(allowed_seq()[0] == 0i32);
                assert(allowed_seq()[1] == 1i32);
                assert(allowed_seq()[2] == 2i32);
                assert(allowed_seq()[3] == 3i32);
                assert(allowed_seq()[4] == 5i32);
                assert(allowed_seq()[5] == 8i32);
                assert(allowed_seq()[6] == 13i32);
                assert(allowed_seq()[7] == 21i32);
                assert(allowed_seq()[8] == 40i32);
                assert(allowed_seq()[9] == 100i32);
            }
        }
        r
    }
    /// The allowed vote closest to the arithmetic mean `sum / count` of a
    /// round's votes; when two allowed values are equidistant the smaller
    /// one wins.  Distances are compared scaled by `count`, which for
    /// `count >= 1` orders them exactly as distances to the mean itself.
    pub fn closest_to_average(sum: u128, count: usize) -> (r: Vote)
        requires
            count >= 1,
        ensures
            r@ == closest_allowed(sum as int, count as int),
            is_allowed_value(r@),
    {
        let allowed = Vote::get_allowed_values();
        let mut best: i32 = allowed[0];
        let mut i: usize = 1;
        proof {
            assert(allowed_seq().drop_first() =~= allowed_seq().skip(1));
        }
        while i < 10
            invariant
                1 <= i <= 10,
                allowed@ == allowed_seq(),
                count >= 1,
                is_allowed_value(best as int),
                0 <= best <= 100,
                closest_allowed(sum as int, count as int) == closest_from(
                    allowed_seq().skip(i as int),
                    best as int,
                    sum as int,
                    count as int,
                ),
            decreases 10 - i,
        {
            let cand = allowed[i];
            let dc = scaled_diff(cand, sum, count);
            let db = scaled_diff(best, sum, count);
            proof {
                let rest = allowed_seq().skip(i as int);
                assert(rest.len() == 10 - i);
                assert(rest[0] == allowed_seq()[i as int]);
                assert(rest.drop_first() =~= allowed_seq().skip(i as int + 1));
                assert(closest_from(rest, best as int, sum as int, count as int)
                    == closest_from(
                    rest.drop_first(),
                    better_pick(best as int, cand as int, sum as int, count as int),
                    sum as int,
                    count as int,
                ));
            }
            if dc < db {
                best = cand;
            }
            i += 1;
        }
        proof {
            assert(allowed_seq().skip(10).len() == 0);
        }
        Vote(best)
    }
}

/// `|v * count - sum|` computed without overflow.
fn scaled_diff(v: i32, sum: u128, count: usize) -> (r: u128)
    requires
        0 <= v <= 100,
    ensures
        r as int == scaled_dist(v as int, sum as int, count as int),
{
    proof {
        assert((v as u128 as int) * (count as u128 as int) <= 100 * 0xffff_ffff_ffff_ffffu64
            as int) by (nonlinear_arith)
            requires
                0 <= v as u128 as int <= 100,
                0 <= count as u128 as int <= 0xffff_ffff_ffff_ffffu64 as int,
        ;
    }
    let vc: u128 = (v as u128) * (count as u128);
    if vc >= sum {
        vc - sum
    } else {
        sum - vc
    }
}

/// `|v * count - sum|`: the distance from `v` to the mean `sum / count`,
/// scaled by `count`.
pub open spec fn scaled_dist(v: int, sum: int, count: int) -> int {
    vstd::math::abs(v * count - sum) as int
}

/// Of two candidate values, the one closer to the mean; `a` (the earlier,
/// hence smaller, candidate) wins ties.
pub open spec fn better_pick(a: int, b: int, sum: int, count: int) -> int {
    if scaled_dist(b, sum, count) < scaled_dist(a, sum, count) {
        b
    } else {
        a
    }
}

pub open spec fn closest_from(s: Seq<i32>, acc: int, sum: int, count: int) -> int
    decreases s.len(),
{
    if s.len() == 0 {
        acc
    } else {
        closest_from(s.drop_first(), better_pick(acc, s[0] as int, sum, count), sum, count)
    }
}

/// The allowed value closest to `sum / count`, ties broken toward the
/// smaller value.
pub open spec fn closest_allowed(sum: int, count: int) -> int {
    closest_from(allowed_seq().drop_first(), allowed_seq()[0] as int, sum, count)
}

proof fn lemma_closest_from_min(s: Seq<i32>, acc: int, sum: int, count: int)
    requires
        forall|k: int| 0 <= k < s.len() ==> acc < #[trigger] s[k] as int,
        forall|k1: int, k2: int| 0 <= k1 < k2 < s.len() ==> (s[k1] as int) < (s[k2] as int),
    ensures
        ({
            let c = closest_from(s, acc, sum, count);
            &&& (c == acc || exists|k: int| 0 <= k < s.len() && c == #[trigger] s[k] as int)
            &&& scaled_dist(c, sum, count) <= scaled_dist(acc, sum, count)
            &&& forall|k: int|
                0 <= k < s.len() ==> scaled_dist(c, sum, count) <= scaled_dist(
                    #[trigger] s[k] as int,
                    sum,
                    count,
                )
            &&& (scaled_dist(c, sum, count) == scaled_dist(acc, sum, count) ==> c <= acc)
            &&& forall|k: int|
                0 <= k < s.len() && scaled_dist(c, sum, count) == scaled_dist(
                    #[trigger] s[k] as int,
                    sum,
                    count,
                ) ==> c <= s[k] as int
        }),
    decreases s.len(),
{
    if s.len() > 0 {
        let acc2 = better_pick(acc, s[0] as int, sum, count);
        let rest = s.drop_first();
        assert(forall|k: int| 0 <= k < rest.len() ==> #[trigger] rest[k] == s[k + 1]);
        lemma_closest_from_min(rest, acc2, sum, count);
        let c = closest_from(s, acc, sum, count);
        assert(c == closest_from(rest, acc2, sum, count));
        assert forall|k: int| 0 <= k < s.len() implies scaled_dist(c, sum, count) <= scaled_dist(
            #[trigger] s[k] as int,
            sum,
            count,
        ) by {
            if k >= 1 {
                assert(rest[k - 1] == s[k]);
            }
        }
        assert forall|k: int|
            0 <= k < s.len() && scaled_dist(c, sum, count) == scaled_dist(
                #[trigger] s[k] as int,
                sum,
                count,
            ) implies c <= s[k] as int by {
            if k >= 1 {
                assert(rest[k - 1] == s[k]);
            } else {
                if acc2 == acc {
                    if c == acc2 {
                        assert(c <= s[0] as int);
                    } else {
                        assert(scaled_dist(c, sum, count) <= scaled_dist(acc2, sum, count));
                        assert(scaled_dist(acc, sum, count) <= scaled_dist(
                            s[0] as int,
                            sum,
                            count,
                        ));
                        assert(scaled_dist(c, sum, count) == scaled_dist(acc, sum, count));
                        assert(c <= acc);
                    }
                }
            }
        }
    }
}

/// The derived estimate is the allowed value with the smallest distance
/// to the vote average; when two allowed values are equally close, the
/// smaller one is chosen.  (Distances are compared scaled by `count`,
/// which for `count >= 1` is the order of the distances to the mean.)
pub proof fn lemma_closest_allowed_minimal(sum: int, count: int)
    requires
        count >= 1,
    ensures
        is_allowed_value(closest_allowed(sum, count)),
        forall|w: int|
            is_allowed_value(w) ==> scaled_dist(closest_allowed(sum, count), sum, count)
                <= scaled_dist(w, sum, count),
        forall|w: int|
            is_allowed_value(w) && scaled_dist(w, sum, count) == scaled_dist(
                closest_allowed(sum, count),
                sum,
                count,
            ) ==> closest_allowed(sum, count) <= w,
{
    let s = allowed_seq().drop_first();
    assert(allowed_seq()[0] == 0i32);
    assert(s.len() == 9);
    assert(s[0] == 1i32 && s[1] == 2i32 && s[2] == 3i32 && s[3] == 5i32 && s[4] == 8i32
        && s[5] == 13i32 && s[6] == 21i32 && s[7] == 40i32 && s[8] == 100i32);
    lemma_closest_from_min(s, 0, sum, count);
    let c = closest_allowed(sum, count);
    assert(is_allowed_value(c));
    assert forall|w: int| is_allowed_value(w) implies scaled_dist(c, sum, count) <= scaled_dist(
        w,
        sum,
        count,
    ) by {
        if w != 0 {
            let k: int = if w == 1 {
                0
            } else if w == 2 {
                1
            } else if w == 3 {
                2
            } else if w == 5 {
                3
            } else if w == 8 {
                4
            } else if w == 13 {
                5
            } else if w == 21 {
                6
            } else if w == 40 {
                7
            } else {
                8
            };
            assert(s[k] as int == w);
        }
    }
    assert forall|w: int|
        is_allowed_value(w) && scaled_dist(w, sum, count) == scaled_dist(
            c,
            sum,
            count,
        ) implies c <= w by {
        if w != 0 {
            let k: int = if w == 1 {
                0
            } else if w == 2 {
                1
            } else if w == 3 {
                2
            } else if w == 5 {
                3
            } else if w == 8 {
                4
            } else if w == 13 {
                5
            } else if w == 21 {
                6
            } else if w == 40 {
                7
            } else {
                8
            };
            assert(s[k] as int == w);
        }
    }
}

} // verus!
