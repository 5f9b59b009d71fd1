use vstd::prelude::*;

use rand::RngExt;

use crate::scoring::count_die;
use crate::scoring::count_eq;
use crate::scoring::counts_upto;
use crate::scoring::get_score_1_to_6;
use crate::scoring::lemma_count_absent;
use crate::scoring::lemma_count_bounds;
use crate::scoring::lemma_count_pointwise_ge;
use crate::scoring::lemma_count_take_le;
use crate::scoring::lemma_sum_bounds;
use crate::scoring::lemma_count_take_succ;
use crate::scoring::lemma_counts_total;
use crate::scoring::lemma_counts_upto_mono;
use crate::scoring::get_score_chance;
use crate::scoring::get_score_for_x_of_a_kind;
use crate::scoring::get_score_full_house;
use crate::scoring::get_score_kniffel;
use crate::scoring::get_score_large_straight;
use crate::scoring::get_score_small_straight;
use crate::scoring::has_x_of_a_kind;
use crate::scoring::is_full_house;
use crate::scoring::is_kniffel;
use crate::scoring::is_large_straight;
use crate::scoring::is_small_straight;
use crate::scoring::sum_of;
use crate::scoring::wf_hand;

verus! {

/// The thirteen scoring categories, each usable once per player.
#[derive(Clone, Copy, Debug, PartialEq, Eq, Hash, Structural)]
pub enum BookingType {
    Ones,
    Twos,
    Threes,
    Fours,
    Fives,
    Sixes,
    ThreeOfAKind,
    FourOfAKind,
    FullHouse,
    SmallStraight,
    LargeStraight,
    Kniffel,
    Chance,
}

/// The coarse state of a turn: waiting for a (re-)roll, waiting for a
/// booking, or finished for good.
#[derive(Clone, Copy, Debug, PartialEq, Eq, Hash, Structural)]
pub enum GameState {
    /// The player may keep dice and re-roll the rest.
    Roll,
    /// The player has to book the dice on the table into one category.
    Book,
    /// The game has ended; no operation mutates it any further.
    Ended,
}

/// Every way an engine operation can fail, surfaced as a typed result.
#[derive(Clone, Copy, Debug, PartialEq, Eq, Structural)]
pub enum KniffelError {
    /// The supplied player list is empty or contains a duplicate name.
    InvalidPlayerList,
    /// The keep request asks for more copies of a face than the hand holds.
    InvalidDiceSelection,
    /// The current player has already booked that category.
    CategoryAlreadyUsed,
    /// The current-player index does not point into the roster.
    PlayerNotFound,
    /// The operation is not allowed in the game's current phase.
    InvalidPhase,
}

/// A fixed position of each category, used to key the per-player usage table.
pub open spec fn cat_index(bt: BookingType) -> int {
    match bt {
        BookingType::Ones => 0,
        BookingType::Twos => 1,
        BookingType::Threes => 2,
        BookingType::Fours => 3,
        BookingType::Fives => 4,
        BookingType::Sixes => 5,
        BookingType::ThreeOfAKind => 6,
        BookingType::FourOfAKind => 7,
        BookingType::FullHouse => 8,
        BookingType::SmallStraight => 9,
        BookingType::LargeStraight => 10,
        BookingType::Kniffel => 11,
        BookingType::Chance => 12,
    }
}

/// The category that sits at a given position of the usage table.
pub open spec fn booking_of_index(i: int) -> BookingType {
    if i == 0 {
        BookingType::Ones
    } else if i == 1 {
        BookingType::Twos
    } else if i == 2 {
        BookingType::Threes
    } else if i == 3 {
        BookingType::Fours
    } else if i == 4 {
        BookingType::Fives
    } else if i == 5 {
        BookingType::Sixes
    } else if i == 6 {
        BookingType::ThreeOfAKind
    } else if i == 7 {
        BookingType::FourOfAKind
    } else if i == 8 {
        BookingType::FullHouse
    } else if i == 9 {
        BookingType::SmallStraight
    } else if i == 10 {
        BookingType::LargeStraight
    } else if i == 11 {
        BookingType::Kniffel
    } else {
        BookingType::Chance
    }
}

impl BookingType {
    /// Position of this category in the usage table.
    pub fn index(self) -> (i: usize)
        ensures
            i == cat_index(self),
            i < 13,
    {
        match self {
            BookingType::Ones => 0,
            BookingType::Twos => 1,
            BookingType::Threes => 2,
            BookingType::Fours => 3,
            BookingType::Fives => 4,
            BookingType::Sixes => 5,
            BookingType::ThreeOfAKind => 6,
            BookingType::FourOfAKind => 7,
            BookingType::FullHouse => 8,
            BookingType::SmallStraight => 9,
            BookingType::LargeStraight => 10,
            BookingType::Kniffel => 11,
            BookingType::Chance => 12,
        }
    }

    /// The category at a given position of the usage table.
    pub fn from_index(i: usize) -> (bt: BookingType)
        requires
            i < 13,
        ensures
            bt == booking_of_index(i as int),
            cat_index(bt) == i,
    {
        if i == 0 {
            BookingType::Ones
        } else if i == 1 {
            BookingType::Twos
        } else if i == 2 {
            BookingType::Threes
        } else if i == 3 {
            BookingType::Fours
        } else if i == 4 {
            BookingType::Fives
        } else if i == 5 {
            BookingType::Sixes
        } else if i == 6 {
            BookingType::ThreeOfAKind
        } else if i == 7 {
            BookingType::FourOfAKind
        } else if i == 8 {
            BookingType::FullHouse
        } else if i == 9 {
            BookingType::SmallStraight
        } else if i == 10 {
            BookingType::LargeStraight
        } else if i == 11 {
            BookingType::Kniffel
        } else {
            BookingType::Chance
        }
    }
}

/// The table position determines the category: the two maps are inverse.
pub proof fn lemma_cat_index_inverse(bt: BookingType)
    ensures
        0 <= cat_index(bt) < 13,
        booking_of_index(cat_index(bt)) == bt,
{
}

/// Each table position is the index of its own category.
pub proof fn lemma_index_booking_inverse(k: int)
    requires
        0 <= k < 13,
    ensures
        cat_index(booking_of_index(k)) == k,
{
}

/// How many entries of a usage table are set.
pub open spec fn used_count_of(s: Seq<bool>) -> int
    decreases s.len(),
{
    if s.len() == 0 {
        0
    } else {
        used_count_of(s.drop_last()) + if s.last() {
            1int
        } else {
            0int
        }
    }
}

/// A usage table never holds more marks than entries; with thirteen
/// categories the used set therefore has size at most thirteen, and the
/// table representation rules out duplicates by construction.
pub proof fn lemma_used_count_bounds(s: Seq<bool>)
    ensures
        0 <= used_count_of(s) <= s.len(),
    decreases s.len(),
{
    if s.len() > 0 {
        lemma_used_count_bounds(s.drop_last());
    }
}

/// Marking an unmarked entry raises the count by one; marking a marked
/// entry leaves it unchanged.
pub proof fn lemma_used_count_update(s: Seq<bool>, i: int)
    requires
        0 <= i < s.len(),
    ensures
        used_count_of(s.update(i, true)) == used_count_of(s) + if s[i] {
            0int
        } else {
            1int
        },
    decreases s.len(),
{
    if i == s.len() - 1 {
        assert(s.update(i, true).drop_last() =~= s.drop_last());
    } else {
        assert(s.update(i, true).drop_last() =~= s.drop_last().update(i, true));
        lemma_used_count_update(s.drop_last(), i);
    }
}

/// A table with no mark counts zero.
pub proof fn lemma_used_count_all_false(s: Seq<bool>)
    requires
        forall|i: int| 0 <= i < s.len() ==> !(#[trigger] s[i]),
    ensures
        used_count_of(s) == 0,
    decreases s.len(),
{
    if s.len() > 0 {
        lemma_used_count_all_false(s.drop_last());
    }
}

/// One participant: a unique name, a running total, and the categories
/// already booked.
#[derive(Debug, Clone)]
pub struct KniffelPlayer {
    pub name: String,
    pub score: i32,
    /// Entry `cat_index(bt)` says whether category `bt` was booked already.
    pub used_booking_types: [bool; 13],
}

/// Whether the player has already booked the category.
pub open spec fn spec_has_used(p: KniffelPlayer, bt: BookingType) -> bool {
    p.used_booking_types@[cat_index(bt)]
}

/// A player's score is non-negative and can only have come from bookings,
/// each worth at most 50.
pub open spec fn wf_player(p: KniffelPlayer) -> bool {
    0 <= p.score <= 50 * used_count_of(p.used_booking_types@)
}

impl KniffelPlayer {
    /// A fresh player: no score, no category used yet.
    pub fn new(name: &String) -> (p: Self)
        ensures
            p.name == *name,
            p.score == 0,
            forall|i: int| 0 <= i < 13 ==> !(#[trigger] p.used_booking_types@[i]),
            used_count_of(p.used_booking_types@) == 0,
            wf_player(p),
    {
        let p = KniffelPlayer { name: name.clone(), score: 0, used_booking_types: [false;13] };
        proof {
            lemma_used_count_all_false(p.used_booking_types@);
        }
        p
    }

    /// Adds a booking's value to the running total.
    pub fn add_score(&mut self, score: i32)
        requires
            score >= 0,
            old(self).score + score <= i32::MAX,
        ensures
            final(self).score == old(self).score + score,
            final(self).name == old(self).name,
            final(self).used_booking_types == old(self).used_booking_types,
    {
        self.score += score;
    }

    /// Marks a category as booked. Marking it twice changes nothing.
    pub fn use_booking_type(&mut self, booking_type: BookingType)
        ensures
            final(self).used_booking_types@ == old(self).used_booking_types@.update(
                cat_index(booking_type),
                true,
            ),
            final(self).name == old(self).name,
            final(self).score == old(self).score,
    {
        let i = booking_type.index();
        self.used_booking_types[i] = true;
    }

    /// Whether a category was booked already.
    pub fn has_used_booking_type(&self, booking_type: &BookingType) -> (r: bool)
        ensures
            r == spec_has_used(*self, *booking_type),
    {
        let i = booking_type.index();
        self.used_booking_types[i]
    }

    /// How many categories the player has booked; 13 means finished.
    pub fn used_count(&self) -> (n: usize)
        ensures
            n == used_count_of(self.used_booking_types@),
            n <= 13,
    {
        let mut n: usize = 0;
        let mut i: usize = 0;
        while i < 13
            invariant
                0 <= i <= 13,
                n == used_count_of(self.used_booking_types@.take(i as int)),
                n <= i,
            decreases 13 - i,
        {
            assert(self.used_booking_types@.take(i as int + 1).drop_last() =~= self
                .used_booking_types@.take(i as int));
            if self.used_booking_types[i] {
                n = n + 1;
            }
            i = i + 1;
        }
        assert(self.used_booking_types@.take(13) =~= self.used_booking_types@);
        n
    }

    /// The categories the player has not booked yet, in table order.
    pub fn unused_booking_types(&self) -> (v: Vec<BookingType>)
        ensures
            forall|j: int|
                0 <= j < v@.len() ==> !spec_has_used(*self, #[trigger] v@[j]),
            forall|bt: BookingType| !spec_has_used(*self, bt) ==> v@.contains(bt),
            forall|j: int, k: int| 0 <= j < k < v@.len() ==> cat_index(v@[j]) < cat_index(v@[k]),
    {
        let mut v: Vec<BookingType> = Vec::new();
        let mut i: usize = 0;
        while i < 13
            invariant
                0 <= i <= 13,
                forall|j: int|
                    0 <= j < v@.len() ==> !spec_has_used(*self, #[trigger] v@[j]),
                forall|j: int| 0 <= j < v@.len() ==> 0 <= cat_index(#[trigger] v@[j]) < i,
                forall|k: int|
                    0 <= k < i && !self.used_booking_types@[k] ==> v@.contains(
                        #[trigger] booking_of_index(k),
                    ),
                forall|j: int, k: int|
                    0 <= j < k < v@.len() ==> cat_index(v@[j]) < cat_index(v@[k]),
            decreases 13 - i,
        {
            if !self.used_booking_types[i] {
                let bt = BookingType::from_index(i);
                let ghost old_v = v@;
                v.push(bt);
                assert(v@.last() == bt && v@.drop_last() =~= old_v);
                assert(forall|k: int|
                    0 <= k < i + 1 && !self.used_booking_types@[k] ==> v@.contains(
                        #[trigger] booking_of_index(k),
                    )) by {
                    assert(forall|b: BookingType| old_v.contains(b) ==> #[trigger] v@.contains(b))
                        by {
                        assert(forall|j: int|
                            0 <= j < old_v.len() ==> v@[j] == #[trigger] old_v[j]);
                    }
                    assert(v@[v@.len() - 1] == booking_of_index(i as int));
                    assert(v@.contains(booking_of_index(i as int)));
                }
            }
            i = i + 1;
        }
        proof {
            assert forall|bt: BookingType| !spec_has_used(*self, bt) implies v@.contains(bt) by {
                lemma_cat_index_inverse(bt);
            }
        }
        v
    }
}

/// Nondecreasing order: the canonical hand representation after every roll.
pub open spec fn is_sorted(s: Seq<i32>) -> bool {
    forall|i: int, j: int| 0 <= i <= j < s.len() ==> s[i] <= s[j]
}

/// What the keep/re-roll matching step leaves in slot `i`: the i-th keep
/// request survives exactly when the requests for its face up to and
/// including it do not outnumber that face in the hand.
pub open spec fn kept_slot(hand: Seq<i32>, keep: Seq<i32>, i: int) -> i32 {
    if 0 <= i < keep.len() && count_eq(keep.take(i + 1), keep[i]) <= count_eq(hand, keep[i]) {
        keep[i]
    } else {
        0
    }
}

/// The hand after the keep/re-roll matching step: kept faces in request
/// order, every other slot pending (0).
pub open spec fn spec_kept(hand: Seq<i32>, keep: Seq<i32>) -> Seq<i32> {
    Seq::new(5, |i: int| kept_slot(hand, keep, i))
}

/// A keep request is valid when it asks for no more copies of any face than
/// the hand currently shows (and hence for at most five dice in all).
pub open spec fn valid_keep(hand: Seq<i32>, keep: Seq<i32>) -> bool {
    keep.len() <= 5 && forall|i: int|
        0 <= i < keep.len() ==> count_eq(keep, #[trigger] keep[i]) <= count_eq(hand, keep[i])
}

/// Relies on rand's `RngExt::random_range`: the result of sampling the
/// non-empty range 1..=6 lies within it.
#[verifier::external_body]
fn roll_die() -> (r: i32)
    ensures
        1 <= r <= 6,
{
    rand::rng().random_range(1..=6)
}

/// Relies on uuid's `Uuid::new_v4` and its `Simple` display format: the
/// identifier is rendered as exactly 32 hexadecimal ASCII characters.
#[verifier::external_body]
fn fresh_game_id() -> (r: String)
    ensures
        r@.len() == 32,
{
    uuid::Uuid::new_v4().simple().to_string()
}

/// Counts the entries of a slice equal to `v`.
fn count_in_slice(values: &[i32], v: i32) -> (count: usize)
    ensures
        count == count_eq(values@, v),
{
    let mut count: usize = 0;
    let mut i: usize = 0;
    while i < values.len()
        invariant
            0 <= i <= values@.len(),
            count == count_eq(values@.take(i as int), v),
            count <= i,
        decreases values@.len() - i,
    {
        proof {
            lemma_count_take_succ(values@, v, i as int);
        }
        if values[i] == v {
            count = count + 1;
        }
        i = i + 1;
    }
    assert(values@.take(values@.len() as int) =~= values@);
    count
}

/// Whether a keep request is consistent with the current hand.
fn check_keep(dice: &[i32; 5], dice_to_keep: &[i32]) -> (ok: bool)
    ensures
        ok == valid_keep(dice@, dice_to_keep@),
{
    if dice_to_keep.len() > 5 {
        return false;
    }
    let mut i: usize = 0;
    while i < dice_to_keep.len()
        invariant
            dice_to_keep@.len() <= 5,
            0 <= i <= dice_to_keep@.len(),
            forall|j: int|
                0 <= j < i ==> count_eq(dice_to_keep@, #[trigger] dice_to_keep@[j]) <= count_eq(
                    dice@,
                    dice_to_keep@[j],
                ),
        decreases dice_to_keep@.len() - i,
    {
        let v = dice_to_keep[i];
        let in_keep = count_in_slice(dice_to_keep, v);
        let in_hand = count_die(dice, v);
        if in_keep > in_hand {
            return false;
        }
        i = i + 1;
    }
    true
}

/// Rolls a fresh face for every pending (0) slot and keeps the rest.
fn roll_pending(dice: &mut [i32; 5])
    requires
        forall|i: int| 0 <= i < 5 ==> 0 <= #[trigger] old(dice)@[i] <= 6,
    ensures
        wf_hand(final(dice)@),
        forall|i: int| 0 <= i < 5 && old(dice)@[i] != 0 ==> final(dice)@[i] == old(dice)@[i],
        forall|v: i32| 1 <= v <= 6 ==> count_eq(final(dice)@, v) >= count_eq(old(dice)@, v),
{
    let mut i: usize = 0;
    while i < 5
        invariant
            0 <= i <= 5,
            forall|j: int| 0 <= j < i ==> 1 <= #[trigger] dice@[j] <= 6,
            forall|j: int| i <= j < 5 ==> #[trigger] dice@[j] == old(dice)@[j],
            forall|j: int|
                0 <= j < 5 && old(dice)@[j] != 0 ==> #[trigger] dice@[j] == old(dice)@[j],
            forall|j: int| 0 <= j < 5 ==> 0 <= #[trigger] old(dice)@[j] <= 6,
        decreases 5 - i,
    {
        if dice[i] == 0 {
            let r = roll_die();
            dice[i] = r;
        }
        i = i + 1;
    }
    proof {
        assert forall|v: i32| 1 <= v <= 6 implies count_eq(dice@, v) >= count_eq(
            old(dice)@,
            v,
        ) by {
            lemma_count_pointwise_ge(old(dice)@, dice@, v);
        }
    }
}

/// Sorts the hand ascending by counting faces: the canonical hand order.
fn sort_dice(dice: &mut [i32; 5])
    requires
        wf_hand(old(dice)@),
    ensures
        wf_hand(final(dice)@),
        is_sorted(final(dice)@),
        forall|v: i32| count_eq(final(dice)@, v) == count_eq(old(dice)@, v),
{
    let ghost orig = old(dice)@;
    let mut counts: [usize; 6] = [0;6];
    let mut v: usize = 1;
    while v <= 6
        invariant
            1 <= v <= 7,
            dice@ == orig,
            wf_hand(orig),
            forall|w: int|
                1 <= w < v ==> #[trigger] counts@[w - 1] == count_eq(orig, w as i32),
        decreases 7 - v,
    {
        counts[v - 1] = count_die(dice, v as i32);
        v = v + 1;
    }
    let mut pos: usize = 0;
    let mut f: usize = 1;
    while f <= 6
        invariant
            1 <= f <= 7,
            0 <= pos <= 5,
            wf_hand(orig),
            forall|w: int|
                1 <= w <= 6 ==> #[trigger] counts@[w - 1] == count_eq(orig, w as i32),
            pos == counts_upto(orig, f as int - 1),
            forall|w: i32|
                1 <= w < f ==> count_eq(dice@.take(pos as int), w) == count_eq(orig, w),
            forall|idx: int| 0 <= idx < pos ==> 1 <= #[trigger] dice@[idx] && dice@[idx] < f,
            is_sorted(dice@.take(pos as int)),
        decreases 7 - f,
    {
        let c = counts[f - 1];
        proof {
            lemma_counts_upto_mono(orig, f as int, 6);
            lemma_counts_total(orig);
            assert(counts_upto(orig, f as int) == counts_upto(orig, f as int - 1) + count_eq(
                orig,
                f as i32,
            ));
            assert forall|idx: int| 0 <= idx < pos implies #[trigger] dice@.take(pos as int)[idx]
                != f as i32 by {}
            lemma_count_absent(dice@.take(pos as int), f as i32);
        }
        let mut k: usize = 0;
        while k < c
            invariant
                1 <= f <= 6,
                0 <= k <= c,
                c == count_eq(orig, f as i32),
                wf_hand(orig),
                pos == counts_upto(orig, f as int - 1) + k,
                pos + (c - k) <= 5,
                forall|w: i32|
                    1 <= w < f ==> count_eq(dice@.take(pos as int), w) == count_eq(orig, w),
                count_eq(dice@.take(pos as int), f as i32) == k,
                forall|idx: int|
                    0 <= idx < pos ==> 1 <= #[trigger] dice@[idx] && dice@[idx] <= f,
                is_sorted(dice@.take(pos as int)),
            decreases c - k,
        {
            let ghost prev = dice@;
            dice[pos] = f as i32;
            proof {
                assert(dice@.take(pos as int) =~= prev.take(pos as int));
                assert(dice@.take(pos as int + 1).drop_last() =~= dice@.take(pos as int));
                assert(dice@.take(pos as int + 1).last() == f as i32);
            }
            pos = pos + 1;
            k = k + 1;
        }
        f = f + 1;
    }
    proof {
        lemma_counts_total(orig);
        assert(pos == 5);
        assert(dice@.take(5) =~= dice@);
        assert forall|v2: i32| count_eq(dice@, v2) == count_eq(orig, v2) by {
            if !(1 <= v2 <= 6) {
                lemma_count_absent(dice@, v2);
                lemma_count_absent(orig, v2);
            }
        }
    }
}

/// The full scoring table: what a hand is worth when booked in a category.
pub open spec fn spec_score(s: Seq<i32>, bt: BookingType) -> int {
    match bt {
        BookingType::Ones => 1 * count_eq(s, 1),
        BookingType::Twos => 2 * count_eq(s, 2),
        BookingType::Threes => 3 * count_eq(s, 3),
        BookingType::Fours => 4 * count_eq(s, 4),
        BookingType::Fives => 5 * count_eq(s, 5),
        BookingType::Sixes => 6 * count_eq(s, 6),
        BookingType::ThreeOfAKind => if has_x_of_a_kind(s, 3) {
            sum_of(s)
        } else {
            0
        },
        BookingType::FourOfAKind => if has_x_of_a_kind(s, 4) {
            sum_of(s)
        } else {
            0
        },
        BookingType::FullHouse => if is_full_house(s) {
            25
        } else {
            0
        },
        BookingType::SmallStraight => if is_small_straight(s) {
            30
        } else {
            0
        },
        BookingType::LargeStraight => if is_large_straight(s) {
            40
        } else {
            0
        },
        BookingType::Kniffel => if is_kniffel(s) {
            50
        } else {
            0
        },
        BookingType::Chance => sum_of(s),
    }
}

/// No two players of a roster share a name.
pub open spec fn distinct_names(ps: Seq<KniffelPlayer>) -> bool {
    forall|i: int, j: int| 0 <= i < j < ps.len() ==> ps[i].name@ != ps[j].name@
}

/// One game: an ordered roster (turn order), an opaque identifier, the roll
/// counter of the current turn, the current player's roster position, the
/// phase, and the five dice in canonical ascending order.
#[derive(Debug, Clone)]
pub struct KniffelGame {
    pub players: Vec<KniffelPlayer>,
    pub game_id: String,
    pub roll_round: i32,
    /// Index of the current player in `players`; turn order is roster order.
    pub current_player: usize,
    pub state: GameState,
    pub dice_rolls: [i32; 5],
}

/// Everything the engine keeps true of a game between operations.
pub open spec fn wf_game(g: KniffelGame) -> bool {
    &&& g.players@.len() >= 1
    &&& g.current_player < g.players@.len()
    &&& distinct_names(g.players@)
    &&& (forall|i: int| 0 <= i < g.players@.len() ==> wf_player(#[trigger] g.players@[i]))
    &&& wf_hand(g.dice_rolls@)
    &&& 1 <= g.roll_round <= 3
    &&& (g.state == GameState::Roll ==> g.roll_round <= 2)
}

/// The roster position after `cur`, wrapping to the front.
pub open spec fn spec_next_index(cur: int, n: int) -> int {
    if cur + 1 < n {
        cur + 1
    } else {
        0
    }
}

/// How a successful booking transforms the game: the current player gains
/// the category's score and the category is marked; from the Roll phase the
/// game merely moves on to Book, from the Book phase the turn passes to the
/// next roster position, which either ends the game (that player finished
/// all thirteen categories) or starts their turn with a fresh first roll.
pub open spec fn booked(pre: KniffelGame, post: KniffelGame, bt: BookingType) -> bool {
    let cur = pre.current_player as int;
    let delta = spec_score(pre.dice_rolls@, bt);
    let p = pre.players@[cur];
    let n = pre.players@.len() as int;
    let nxt = spec_next_index(cur, n);
    &&& post.players@.len() == pre.players@.len()
    &&& (forall|i: int|
        0 <= i < pre.players@.len() && i != cur ==> post.players@[i] == pre.players@[i])
    &&& post.players@[cur].name == p.name
    &&& post.players@[cur].score == p.score + delta
    &&& post.players@[cur].used_booking_types@ == p.used_booking_types@.update(
        cat_index(bt),
        true,
    )
    &&& post.game_id == pre.game_id
    &&& (pre.state == GameState::Roll ==> post.state == GameState::Book && post.current_player
        == pre.current_player && post.roll_round == pre.roll_round && post.dice_rolls
        == pre.dice_rolls)
    &&& (pre.state == GameState::Book ==> {
        &&& post.current_player as int == nxt
        &&& if used_count_of(post.players@[nxt].used_booking_types@) == 13 {
            &&& post.state == GameState::Ended
            &&& post.roll_round == pre.roll_round
            &&& post.dice_rolls == pre.dice_rolls
        } else {
            &&& post.state == GameState::Roll
            &&& post.roll_round == 1
            &&& wf_hand(post.dice_rolls@)
            &&& is_sorted(post.dice_rolls@)
        }
    })
}

/// Kept slots only ever hold pending 0 or a face of the hand.
proof fn lemma_kept_slots_in_range(hand: Seq<i32>, keep: Seq<i32>)
    requires
        wf_hand(hand),
    ensures
        forall|j: int| 0 <= j < 5 ==> 0 <= #[trigger] spec_kept(hand, keep)[j] <= 6,
{
    assert forall|j: int| 0 <= j < 5 implies 0 <= #[trigger] spec_kept(hand, keep)[j] <= 6 by {
        let s = kept_slot(hand, keep, j);
        if s != 0 {
            lemma_count_bounds(keep.take(j), s);
            lemma_count_take_succ(keep, s, j);
            assert(count_eq(hand, s) >= 1);
            if !(1 <= s <= 6) {
                lemma_count_absent(hand, s);
            }
        }
    }
}

/// A valid keep request survives the matching step in full: the kept slots
/// hold at least as many copies of each face as were requested.
pub proof fn lemma_valid_keep_counts(hand: Seq<i32>, keep: Seq<i32>)
    requires
        wf_hand(hand),
        valid_keep(hand, keep),
    ensures
        forall|v: i32| count_eq(spec_kept(hand, keep), v) >= count_eq(keep, v),
{
    let kept = spec_kept(hand, keep);
    assert forall|j: int| 0 <= j < keep.len() implies kept[j] == keep[j] by {
        lemma_count_take_le(keep, keep[j], j + 1);
    }
    assert(kept.take(keep.len() as int) =~= keep);
    assert forall|v: i32| count_eq(kept, v) >= count_eq(keep, v) by {
        lemma_count_take_le(kept, v, keep.len() as int);
    }
}

impl KniffelGame {
    /// Creates a new game for an ordered roster and performs the starting
    /// player's first roll. Rejects an empty roster and duplicate names.
    pub fn new(player_list: Vec<KniffelPlayer>) -> (r: Result<KniffelGame, KniffelError>)
        requires
            forall|i: int| 0 <= i < player_list@.len() ==> wf_player(#[trigger] player_list@[i]),
        ensures
            r is Err <==> (player_list@.len() == 0 || !distinct_names(player_list@)),
            r is Err ==> r == Err::<KniffelGame, KniffelError>(KniffelError::InvalidPlayerList),
            r matches Ok(g) ==> wf_game(g) && g.players@ == player_list@ && g.current_player == 0
                && g.state == GameState::Roll && g.roll_round == 1 && g.game_id@.len() == 32
                && wf_hand(g.dice_rolls@) && is_sorted(g.dice_rolls@),
    {
        let n = player_list.len();
        if n == 0 {
            return Err(KniffelError::InvalidPlayerList);
        }
        let mut dup: bool = false;
        let mut i: usize = 0;
        while i < n
            invariant
                0 <= i <= n,
                n == player_list@.len(),
                dup == exists|a: int, b: int|
                    0 <= a < b < n && a < i && (#[trigger] player_list@[a].name@)
                        == #[trigger] player_list@[b].name@,
            decreases n - i,
        {
            let mut j: usize = i + 1;
            while j < n
                invariant
                    0 <= i < n,
                    i < j <= n,
                    n == player_list@.len(),
                    dup == ((exists|a: int, b: int|
                        0 <= a < b < n && a < i && (#[trigger] player_list@[a].name@)
                            == #[trigger] player_list@[b].name@) || (exists|b: int|
                        i < b < j && player_list@[i as int].name@
                            == (#[trigger] player_list@[b].name@))),
                decreases n - j,
            {
                if player_list[i].name == player_list[j].name {
                    dup = true;
                }
                j = j + 1;
            }
            i = i + 1;
        }
        if dup {
            return Err(KniffelError::InvalidPlayerList);
        }
        let mut game = KniffelGame {
            players: player_list,
            game_id: fresh_game_id(),
            roll_round: 0,
            current_player: 0,
            state: GameState::Roll,
            dice_rolls: [0;5],
        };
        roll_pending(&mut game.dice_rolls);
        sort_dice(&mut game.dice_rolls);
        game.roll_round = 1;
        Ok(game)
    }

    /// The roster position whose turn comes after the current player's.
    pub fn find_next_player(&self) -> (nxt: usize)
        requires
            self.players@.len() >= 1,
            self.current_player < self.players@.len(),
        ensures
            nxt == spec_next_index(self.current_player as int, self.players@.len() as int),
            nxt < self.players@.len(),
    {
        let n = self.players.len();
        if self.current_player < n - 1 {
            self.current_player + 1
        } else {
            0
        }
    }

    /// The score the current hand is worth in a category.
    pub fn get_to_add_score(&self, booking_type: BookingType) -> (score: i32)
        requires
            wf_hand(self.dice_rolls@),
        ensures
            score == spec_score(self.dice_rolls@, booking_type),
            0 <= score <= 50,
    {
        match booking_type {
            BookingType::Ones => get_score_1_to_6(&self.dice_rolls, 1),
            BookingType::Twos => get_score_1_to_6(&self.dice_rolls, 2),
            BookingType::Threes => get_score_1_to_6(&self.dice_rolls, 3),
            BookingType::Fours => get_score_1_to_6(&self.dice_rolls, 4),
            BookingType::Fives => get_score_1_to_6(&self.dice_rolls, 5),
            BookingType::Sixes => get_score_1_to_6(&self.dice_rolls, 6),
            BookingType::ThreeOfAKind => get_score_for_x_of_a_kind(&self.dice_rolls, 3),
            BookingType::FourOfAKind => get_score_for_x_of_a_kind(&self.dice_rolls, 4),
            BookingType::Kniffel => get_score_kniffel(&self.dice_rolls),
            BookingType::FullHouse => get_score_full_house(&self.dice_rolls),
            BookingType::SmallStraight => get_score_small_straight(&self.dice_rolls),
            BookingType::LargeStraight => get_score_large_straight(&self.dice_rolls),
            BookingType::Chance => get_score_chance(&self.dice_rolls),
        }
    }

    /// The keep/re-roll matching step: keeps the requested faces (as far as
    /// the hand holds them) in request order and marks every other slot
    /// pending (0).
    pub fn remove_dice(&mut self, dice_to_keep: &[i32])
        requires
            wf_hand(old(self).dice_rolls@),
            dice_to_keep@.len() <= 5,
        ensures
            final(self).dice_rolls@ == spec_kept(old(self).dice_rolls@, dice_to_keep@),
            final(self).players@ == old(self).players@,
            final(self).game_id == old(self).game_id,
            final(self).roll_round == old(self).roll_round,
            final(self).current_player == old(self).current_player,
            final(self).state == old(self).state,
    {
        let ghost hand = self.dice_rolls@;
        let ghost keep = dice_to_keep@;
        let mut counts: [usize; 6] = [0;6];
        let mut w: usize = 1;
        while w <= 6
            invariant
                1 <= w <= 7,
                self.dice_rolls@ == hand,
                forall|u: int|
                    1 <= u < w ==> #[trigger] counts@[u - 1] == count_eq(hand, u as i32),
            decreases 7 - w,
        {
            counts[w - 1] = count_die(&self.dice_rolls, w as i32);
            w = w + 1;
        }
        let mut result: [i32; 5] = [0;5];
        let mut i: usize = 0;
        while i < dice_to_keep.len()
            invariant
                0 <= i <= keep.len() <= 5,
                keep == dice_to_keep@,
                self.dice_rolls@ == hand,
                wf_hand(hand),
                forall|u: i32|
                    1 <= u <= 6 ==> counts@[u - 1] == (if count_eq(keep.take(i as int), u)
                        <= count_eq(hand, u) {
                        count_eq(hand, u) - count_eq(keep.take(i as int), u)
                    } else {
                        0int
                    }),
                forall|j: int| 0 <= j < i ==> result@[j] == kept_slot(hand, keep, j),
                forall|j: int| i <= j < 5 ==> result@[j] == 0,
            decreases keep.len() - i,
        {
            let v = dice_to_keep[i];
            proof {
                lemma_count_take_succ(keep, v, i as int);
                lemma_count_bounds(hand, v);
                if !(1 <= v <= 6) {
                    lemma_count_absent(hand, v);
                }
            }
            if 1 <= v && v <= 6 {
                let slot = (v - 1) as usize;
                if counts[slot] > 0 {
                    result[i] = v;
                    counts[slot] = counts[slot] - 1;
                }
            }
            proof {
                lemma_count_bounds(keep.take(i as int), v);
                assert(result@[i as int] == kept_slot(hand, keep, i as int));
            }
            proof {
                assert forall|u: i32|
                    1 <= u <= 6 implies counts@[u - 1] == (if count_eq(keep.take(i as int + 1), u)
                        <= count_eq(hand, u) {
                        count_eq(hand, u) - count_eq(keep.take(i as int + 1), u)
                    } else {
                        0int
                    }) by {
                    lemma_count_take_succ(keep, u, i as int);
                }
            }
            i = i + 1;
        }
        proof {
            assert(result@ =~= spec_kept(hand, keep));
        }
        self.dice_rolls = result;
    }

    /// Re-rolls all, some, or no dice: retains the requested faces, fills
    /// every other slot with a fresh roll, restores the canonical ascending
    /// order and counts the roll; the third roll of a turn moves the game on
    /// to the Book phase. Allowed only while the game is in the Roll phase.
    pub fn re_roll_dice(&mut self, dice_to_keep: &[i32]) -> (r: Result<(), KniffelError>)
        requires
            wf_game(*old(self)),
        ensures
            wf_game(*final(self)),
            old(self).state != GameState::Roll ==> r == Err::<(), KniffelError>(
                KniffelError::InvalidPhase,
            ) && *final(self) == *old(self),
            old(self).state == GameState::Roll && !valid_keep(
                old(self).dice_rolls@,
                dice_to_keep@,
            ) ==> r == Err::<(), KniffelError>(KniffelError::InvalidDiceSelection) && *final(self)
                == *old(self),
            old(self).state == GameState::Roll && valid_keep(old(self).dice_rolls@, dice_to_keep@)
                ==> ({
                &&& r == Ok::<(), KniffelError>(())
                &&& final(self).players@ == old(self).players@
                &&& final(self).game_id == old(self).game_id
                &&& final(self).current_player == old(self).current_player
                &&& final(self).roll_round == old(self).roll_round + 1
                &&& final(self).state == (if old(self).roll_round + 1 == 3 {
                    GameState::Book
                } else {
                    GameState::Roll
                })
                &&& wf_hand(final(self).dice_rolls@)
                &&& is_sorted(final(self).dice_rolls@)
                &&& (forall|v: i32|
                    1 <= v <= 6 ==> count_eq(final(self).dice_rolls@, v) >= count_eq(
                        dice_to_keep@,
                        v,
                    ))
            }),
    {
        if self.state != GameState::Roll {
            return Err(KniffelError::InvalidPhase);
        }
        if !check_keep(&self.dice_rolls, dice_to_keep) {
            return Err(KniffelError::InvalidDiceSelection);
        }
        let ghost hand0 = self.dice_rolls@;
        self.remove_dice(dice_to_keep);
        proof {
            lemma_valid_keep_counts(hand0, dice_to_keep@);
            lemma_kept_slots_in_range(hand0, dice_to_keep@);
        }
        roll_pending(&mut self.dice_rolls);
        sort_dice(&mut self.dice_rolls);
        self.roll_round = self.roll_round + 1;
        if self.roll_round == 3 {
            self.state = GameState::Book;
        }
        Ok(())
    }

    /// Advances the phase: Roll toggles to Book; Book hands the turn to the
    /// next roster position, ending the game if that player has finished all
    /// thirteen categories and otherwise performing their first roll.
    pub fn next_phase(&mut self)
        requires
            wf_game(*old(self)),
            old(self).state != GameState::Ended,
        ensures
            wf_game(*final(self)),
            old(self).state == GameState::Roll ==> final(self).state == GameState::Book && final(self).players@ == old(self).players@ && final(self).game_id == old(self).game_id && final(self).current_player == old(self).current_player && final(self).roll_round == old(self).roll_round && final(self).dice_rolls == old(self).dice_rolls,
            old(self).state == GameState::Book ==> ({
                let nxt = spec_next_index(
                    old(self).current_player as int,
                    old(self).players@.len() as int,
                );
                &&& final(self).players@ == old(self).players@
                &&& final(self).game_id == old(self).game_id
                &&& final(self).current_player as int == nxt
                &&& if used_count_of(old(self).players@[nxt].used_booking_types@) == 13 {
                    &&& final(self).state == GameState::Ended
                    &&& final(self).roll_round == old(self).roll_round
                    &&& final(self).dice_rolls == old(self).dice_rolls
                } else {
                    &&& final(self).state == GameState::Roll
                    &&& final(self).roll_round == 1
                    &&& wf_hand(final(self).dice_rolls@)
                    &&& is_sorted(final(self).dice_rolls@)
                }
            }),
    {
        if self.state == GameState::Roll {
            self.state = GameState::Book;
        } else {
            self.state = GameState::Roll;
            let nxt = self.find_next_player();
            self.current_player = nxt;
            let finished = self.players[nxt].used_count() == 13;
            if finished {
                self.state = GameState::Ended;
            } else {
                let mut fresh: [i32; 5] = [0;5];
                roll_pending(&mut fresh);
                sort_dice(&mut fresh);
                self.dice_rolls = fresh;
                self.roll_round = 1;
            }
        }
    }

    /// Books the current hand into a category: the current player gains the
    /// category's score, the category is spent, and the phase advances. A
    /// spent category is rejected without any change; an ended game rejects
    /// the call outright.
    pub fn book_dice_roll(&mut self, booking_type: BookingType) -> (r: Result<(), KniffelError>)
        requires
            wf_game(*old(self)),
        ensures
            wf_game(*final(self)),
            (r == Err::<(), KniffelError>(KniffelError::InvalidPhase)) <==> old(self).state
                == GameState::Ended,
            (r == Err::<(), KniffelError>(KniffelError::CategoryAlreadyUsed)) <==> (old(self).state
                != GameState::Ended && spec_has_used(
                old(self).players@[old(self).current_player as int],
                booking_type,
            )),
            r is Err ==> *final(self) == *old(self),
            (r is Ok) <==> (old(self).state != GameState::Ended && !spec_has_used(
                old(self).players@[old(self).current_player as int],
                booking_type,
            )),
            r is Ok ==> booked(*old(self), *final(self), booking_type),
            final(self).players@.len() == old(self).players@.len(),
            forall|i: int|
                0 <= i < old(self).players@.len() ==> (#[trigger] final(self).players@[i]).score
                    >= old(self).players@[i].score,
            forall|i: int, k: int|
                0 <= i < old(self).players@.len() && 0 <= k < 13 && old(self).players@[i].used_booking_types@[k] ==> final(self).players@[i].used_booking_types@[k],
    {
        if self.state == GameState::Ended {
            return Err(KniffelError::InvalidPhase);
        }
        let to_add_score = self.get_to_add_score(booking_type);
        let cur = self.current_player;
        if cur >= self.players.len() {
            return Err(KniffelError::PlayerNotFound);
        }
        if self.players[cur].has_used_booking_type(&booking_type) {
            return Err(KniffelError::CategoryAlreadyUsed);
        }
        proof {
            lemma_used_count_bounds(self.players@[cur as int].used_booking_types@);
        }
        self.players[cur].add_score(to_add_score);
        self.players[cur].use_booking_type(booking_type);
        proof {
            lemma_used_count_update(
                old(self).players@[cur as int].used_booking_types@,
                cat_index(booking_type),
            );
        }
        self.next_phase();
        Ok(())
    }
}

/// Every booking is worth between 0 and 50 points, whatever the hand and the
/// category: a player's cumulative score therefore never decreases and grows
/// by at most 50 per booking.
pub proof fn lemma_spec_score_bounds(s: Seq<i32>, bt: BookingType)
    requires
        wf_hand(s),
    ensures
        0 <= spec_score(s, bt) <= 50,
{
    lemma_sum_bounds(s);
    lemma_count_bounds(s, 1);
    lemma_count_bounds(s, 2);
    lemma_count_bounds(s, 3);
    lemma_count_bounds(s, 4);
    lemma_count_bounds(s, 5);
    lemma_count_bounds(s, 6);
}

} // verus!
