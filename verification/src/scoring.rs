use vstd::prelude::*;

verus! {

/// A well-formed hand: exactly five dice, each showing a face from 1 to 6.
pub open spec fn wf_hand(s: Seq<i32>) -> bool {
    s.len() == 5 && forall|i: int| 0 <= i < s.len() ==> 1 <= #[trigger] s[i] <= 6
}

/// Sum of a sequence of dice values.
pub open spec fn sum_of(s: Seq<i32>) -> int
    decreases s.len(),
{
    if s.len() == 0 {
        0
    } else {
        sum_of(s.drop_last()) + s.last()
    }
}

/// Number of entries of `s` equal to `v`.
pub open spec fn count_eq(s: Seq<i32>, v: i32) -> int
    decreases s.len(),
{
    if s.len() == 0 {
        0
    } else {
        count_eq(s.drop_last(), v) + if s.last() == v {
            1int
        } else {
            0int
        }
    }
}

/// Some face from 1 to 6 occurs at least `threshold` times.
pub open spec fn has_x_of_a_kind(s: Seq<i32>, threshold: int) -> bool {
    exists|v: i32| 1 <= v <= 6 && count_eq(s, v) >= threshold
}

/// One face occurs exactly three times and another exactly twice.
pub open spec fn is_full_house(s: Seq<i32>) -> bool {
    (exists|v: i32| 1 <= v <= 6 && count_eq(s, v) == 3) && (exists|w: i32|
        1 <= w <= 6 && count_eq(s, w) == 2)
}

/// The distinct faces of `s` include {lo, lo+1, lo+2, lo+3}.
pub open spec fn has_run_of_four(s: Seq<i32>, lo: i32) -> bool {
    count_eq(s, lo) >= 1 && count_eq(s, (lo + 1) as i32) >= 1 && count_eq(s, (lo + 2) as i32) >= 1
        && count_eq(s, (lo + 3) as i32) >= 1
}

/// The distinct faces of `s` include one of {1,2,3,4}, {2,3,4,5}, {3,4,5,6}.
pub open spec fn is_small_straight(s: Seq<i32>) -> bool {
    has_run_of_four(s, 1) || has_run_of_four(s, 2) || has_run_of_four(s, 3)
}

/// The distinct faces of `s` include {1,2,3,4,5} or {2,3,4,5,6}; with five
/// dice this holds exactly when all five faces are distinct and consecutive.
pub open spec fn is_large_straight(s: Seq<i32>) -> bool {
    (has_run_of_four(s, 1) && count_eq(s, 5) >= 1) || (has_run_of_four(s, 2) && count_eq(s, 6)
        >= 1)
}

/// All dice show the same face.
pub open spec fn is_kniffel(s: Seq<i32>) -> bool {
    forall|i: int| 0 <= i < s.len() ==> #[trigger] s[i] == s[0]
}

/// Counting over a one-longer prefix adds one exactly when the new entry matches.
pub proof fn lemma_count_take_succ(s: Seq<i32>, v: i32, i: int)
    requires
        0 <= i < s.len(),
    ensures
        count_eq(s.take(i + 1), v) == count_eq(s.take(i), v) + if s[i] == v {
            1int
        } else {
            0int
        },
{
    assert(s.take(i + 1).drop_last() =~= s.take(i));
    assert(s.take(i + 1).last() == s[i]);
}

/// A count never exceeds the length of the sequence and is never negative.
pub proof fn lemma_count_bounds(s: Seq<i32>, v: i32)
    ensures
        0 <= count_eq(s, v) <= s.len(),
    decreases s.len(),
{
    if s.len() > 0 {
        lemma_count_bounds(s.drop_last(), v);
    }
}

/// The sum of dice all in 1..6 lies between the length and six times the length.
pub proof fn lemma_sum_bounds(s: Seq<i32>)
    requires
        forall|i: int| 0 <= i < s.len() ==> 1 <= #[trigger] s[i] <= 6,
    ensures
        s.len() <= sum_of(s) <= 6 * s.len(),
    decreases s.len(),
{
    if s.len() > 0 {
        lemma_sum_bounds(s.drop_last());
    }
}

/// Prefix counts never exceed the count over the whole sequence.
pub proof fn lemma_count_take_le(s: Seq<i32>, v: i32, i: int)
    requires
        0 <= i <= s.len(),
    ensures
        count_eq(s.take(i), v) <= count_eq(s, v),
    decreases s.len(),
{
    if i == s.len() {
        assert(s.take(i) =~= s);
    } else {
        assert(s.drop_last().take(i) =~= s.take(i));
        lemma_count_take_le(s.drop_last(), v, i);
    }
}

/// Replacing one entry adjusts the count by the leaving and entering values.
pub proof fn lemma_count_update(s: Seq<i32>, i: int, x: i32, v: i32)
    requires
        0 <= i < s.len(),
    ensures
        count_eq(s.update(i, x), v) == count_eq(s, v) - (if s[i] == v {
            1int
        } else {
            0int
        }) + (if x == v {
            1int
        } else {
            0int
        }),
    decreases s.len(),
{
    if i == s.len() - 1 {
        assert(s.update(i, x).drop_last() =~= s.drop_last());
    } else {
        assert(s.update(i, x).drop_last() =~= s.drop_last().update(i, x));
        lemma_count_update(s.drop_last(), i, x, v);
    }
}

/// A value that occurs nowhere has count zero.
pub proof fn lemma_count_absent(s: Seq<i32>, v: i32)
    requires
        forall|i: int| 0 <= i < s.len() ==> #[trigger] s[i] != v,
    ensures
        count_eq(s, v) == 0,
    decreases s.len(),
{
    if s.len() > 0 {
        lemma_count_absent(s.drop_last(), v);
    }
}

/// If `t` agrees with `s` except where `s` holds a pending 0, then no
/// non-zero face loses occurrences going from `s` to `t`.
pub proof fn lemma_count_pointwise_ge(s: Seq<i32>, t: Seq<i32>, v: i32)
    requires
        s.len() == t.len(),
        forall|i: int| 0 <= i < s.len() ==> t[i] == s[i] || #[trigger] s[i] == 0,
        v != 0,
    ensures
        count_eq(t, v) >= count_eq(s, v),
    decreases s.len(),
{
    if s.len() > 0 {
        lemma_count_pointwise_ge(s.drop_last(), t.drop_last(), v);
    }
}

/// How many entries show a face between 1 and `v`.
pub open spec fn counts_upto(s: Seq<i32>, v: int) -> int
    decreases v,
{
    if v <= 0 {
        0
    } else {
        counts_upto(s, v - 1) + count_eq(s, v as i32)
    }
}

/// Dropping the last entry lowers exactly the bucket it belonged to.
pub proof fn lemma_counts_upto_drop_last(s: Seq<i32>, v: int)
    requires
        s.len() > 0,
        0 <= v <= 6,
    ensures
        counts_upto(s, v) == counts_upto(s.drop_last(), v) + if 1 <= s.last() <= v {
            1int
        } else {
            0int
        },
    decreases v,
{
    if v > 0 {
        lemma_counts_upto_drop_last(s, v - 1);
    }
}

/// The buckets 1..6 together hold every die of a well-formed hand.
pub proof fn lemma_counts_total(s: Seq<i32>)
    requires
        forall|i: int| 0 <= i < s.len() ==> 1 <= #[trigger] s[i] <= 6,
    ensures
        counts_upto(s, 6) == s.len(),
    decreases s.len(),
{
    if s.len() > 0 {
        assert(1 <= s[s.len() - 1] <= 6);
        lemma_counts_total(s.drop_last());
        lemma_counts_upto_drop_last(s, 6);
    } else {
        reveal_with_fuel(counts_upto, 7);
    }
}

/// Bucket prefix sums grow with the bound.
pub proof fn lemma_counts_upto_mono(s: Seq<i32>, a: int, b: int)
    requires
        a <= b,
    ensures
        counts_upto(s, a) <= counts_upto(s, b),
    decreases b - a,
{
    if a < b {
        lemma_counts_upto_mono(s, a, b - 1);
        lemma_count_bounds(s, b as i32);
    }
}

/// Counts the dice equal to `v`.
pub(crate) fn count_die(dice_rolls: &[i32; 5], v: i32) -> (count: usize)
    ensures
        count == count_eq(dice_rolls@, v),
{
    let mut count: usize = 0;
    let mut i: usize = 0;
    while i < 5
        invariant
            0 <= i <= 5,
            count == count_eq(dice_rolls@.take(i as int), v),
            count <= i,
        decreases 5 - i,
    {
        proof {
            lemma_count_take_succ(dice_rolls@, v, i as int);
        }
        if dice_rolls[i] == v {
            count = count + 1;
        }
        i = i + 1;
    }
    assert(dice_rolls@.take(5) =~= dice_rolls@);
    count
}

/// Sum of all five dice.
fn dice_sum(dice_rolls: &[i32; 5]) -> (total: i32)
    requires
        forall|i: int| 0 <= i < 5 ==> 1 <= #[trigger] dice_rolls@[i] <= 6,
    ensures
        total == sum_of(dice_rolls@),
        5 <= total <= 30,
{
    let mut total: i32 = 0;
    let mut i: usize = 0;
    while i < 5
        invariant
            0 <= i <= 5,
            forall|j: int| 0 <= j < 5 ==> 1 <= #[trigger] dice_rolls@[j] <= 6,
            total == sum_of(dice_rolls@.take(i as int)),
            i <= total <= 6 * i,
        decreases 5 - i,
    {
        assert(dice_rolls@.take(i as int + 1).drop_last() =~= dice_rolls@.take(i as int));
        total = total + dice_rolls[i];
        i = i + 1;
    }
    assert(dice_rolls@.take(5) =~= dice_rolls@);
    total
}

/// Calculates the score for a numeric category: the face `value_to_score`
/// multiplied by the number of dice showing it.
pub fn get_score_1_to_6(dice_rolls: &[i32; 5], value_to_score: i32) -> (score: i32)
    requires
        1 <= value_to_score <= 6,
    ensures
        score == value_to_score * count_eq(dice_rolls@, value_to_score),
        0 <= score <= 30,
{
    let count = count_die(dice_rolls, value_to_score);
    proof {
        lemma_count_bounds(dice_rolls@, value_to_score);
    }
    let c: i32 = count as i32;
    proof {
        assert(0 <= c * value_to_score <= 30 && c * value_to_score == value_to_score * c)
            by (nonlinear_arith)
            requires
                0 <= c <= 5,
                1 <= value_to_score <= 6,
        ;
    }
    c * value_to_score
}

/// Calculates the score for X of a kind: the sum of all five dice if some
/// face occurs at least `value_to_score` times, otherwise 0.
pub fn get_score_for_x_of_a_kind(dice_rolls: &[i32; 5], value_to_score: i32) -> (score: i32)
    requires
        wf_hand(dice_rolls@),
    ensures
        score == if has_x_of_a_kind(dice_rolls@, value_to_score as int) {
            sum_of(dice_rolls@)
        } else {
            0int
        },
        0 <= score <= 30,
{
    let mut found: bool = false;
    let mut v: i32 = 1;
    while v <= 6
        invariant
            1 <= v <= 7,
            found == exists|w: i32| 1 <= w < v && count_eq(dice_rolls@, w) >= value_to_score,
        decreases 7 - v,
    {
        let count = count_die(dice_rolls, v);
        proof {
            lemma_count_bounds(dice_rolls@, v);
        }
        if count as i32 >= value_to_score {
            found = true;
        }
        v = v + 1;
    }
    if found {
        dice_sum(dice_rolls)
    } else {
        0
    }
}

/// Calculates the score for a Full House: 25 if one face occurs exactly three
/// times and another exactly twice, otherwise 0.
pub fn get_score_full_house(dice_rolls: &[i32; 5]) -> (score: i32)
    ensures
        score == if is_full_house(dice_rolls@) {
            25int
        } else {
            0int
        },
{
    let mut has_three: bool = false;
    let mut has_two: bool = false;
    let mut v: i32 = 1;
    while v <= 6
        invariant
            1 <= v <= 7,
            has_three == exists|w: i32| 1 <= w < v && count_eq(dice_rolls@, w) == 3,
            has_two == exists|w: i32| 1 <= w < v && count_eq(dice_rolls@, w) == 2,
        decreases 7 - v,
    {
        let count = count_die(dice_rolls, v);
        if count == 3 {
            has_three = true;
        }
        if count == 2 {
            has_two = true;
        }
        v = v + 1;
    }
    if has_three && has_two {
        25
    } else {
        0
    }
}

/// Whether some die shows the face `v`.
fn has_die(dice_rolls: &[i32; 5], v: i32) -> (present: bool)
    ensures
        present == (count_eq(dice_rolls@, v) >= 1),
{
    let count = count_die(dice_rolls, v);
    count >= 1
}

/// Calculates the score for a Small Straight: 30 if the distinct faces
/// include {1,2,3,4}, {2,3,4,5} or {3,4,5,6}, otherwise 0.
pub fn get_score_small_straight(dice_rolls: &[i32; 5]) -> (score: i32)
    ensures
        score == if is_small_straight(dice_rolls@) {
            30int
        } else {
            0int
        },
{
    let p1 = has_die(dice_rolls, 1);
    let p2 = has_die(dice_rolls, 2);
    let p3 = has_die(dice_rolls, 3);
    let p4 = has_die(dice_rolls, 4);
    let p5 = has_die(dice_rolls, 5);
    let p6 = has_die(dice_rolls, 6);
    if (p1 && p2 && p3 && p4) || (p2 && p3 && p4 && p5) || (p3 && p4 && p5 && p6) {
        30
    } else {
        0
    }
}

/// Calculates the score for a Large Straight: 40 if the faces are exactly
/// 1-2-3-4-5 or 2-3-4-5-6, otherwise 0.
pub fn get_score_large_straight(dice_rolls: &[i32; 5]) -> (score: i32)
    ensures
        score == if is_large_straight(dice_rolls@) {
            40int
        } else {
            0int
        },
{
    let p1 = has_die(dice_rolls, 1);
    let p2 = has_die(dice_rolls, 2);
    let p3 = has_die(dice_rolls, 3);
    let p4 = has_die(dice_rolls, 4);
    let p5 = has_die(dice_rolls, 5);
    let p6 = has_die(dice_rolls, 6);
    if (p1 && p2 && p3 && p4 && p5) || (p2 && p3 && p4 && p5 && p6) {
        40
    } else {
        0
    }
}

/// Calculates the score for a Kniffel: 50 if all five dice show the same
/// face, otherwise 0.
pub fn get_score_kniffel(dice_rolls: &[i32; 5]) -> (score: i32)
    ensures
        score == if is_kniffel(dice_rolls@) {
            50int
        } else {
            0int
        },
{
    let first = dice_rolls[0];
    let mut all_equal: bool = true;
    let mut i: usize = 1;
    while i < 5
        invariant
            1 <= i <= 5,
            first == dice_rolls@[0],
            all_equal == forall|j: int| 0 <= j < i ==> #[trigger] dice_rolls@[j] == dice_rolls@[0],
        decreases 5 - i,
    {
        if dice_rolls[i] != first {
            all_equal = false;
        }
        i = i + 1;
    }
    if all_equal {
        50
    } else {
        0
    }
}

/// Calculates the score for Chance: the sum of all five dice.
pub fn get_score_chance(dice_rolls: &[i32; 5]) -> (score: i32)
    requires
        wf_hand(dice_rolls@),
    ensures
        score == sum_of(dice_rolls@),
        5 <= score <= 30,
{
    dice_sum(dice_rolls)
}

} // verus!
