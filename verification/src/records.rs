use vstd::prelude::*;

use vstd::string::StrSliceExecFns;
use vstd::string::StringExecFns;

use crate::game_logic::booking_of_index;
use crate::game_logic::cat_index;
use crate::game_logic::lemma_cat_index_inverse;
use crate::game_logic::lemma_index_booking_inverse;
use crate::game_logic::BookingType;
use crate::game_logic::KniffelGame;
use crate::game_logic::KniffelPlayer;
use crate::game_logic::used_count_of;
use crate::game_logic::wf_game;
use crate::game_logic::wf_player;
use crate::game_logic::GameState;

verus! {

/// The fixed uppercase snake-case tag of each category in the stored form.
pub open spec fn booking_token(bt: BookingType) -> Seq<char> {
    match bt {
        BookingType::Ones => "ONES"@,
        BookingType::Twos => "TWOS"@,
        BookingType::Threes => "THREES"@,
        BookingType::Fours => "FOURS"@,
        BookingType::Fives => "FIVES"@,
        BookingType::Sixes => "SIXES"@,
        BookingType::ThreeOfAKind => "THREE_OF_A_KIND"@,
        BookingType::FourOfAKind => "FOUR_OF_A_KIND"@,
        BookingType::FullHouse => "FULL_HOUSE"@,
        BookingType::SmallStraight => "SMALL_STRAIGHT"@,
        BookingType::LargeStraight => "LARGE_STRAIGHT"@,
        BookingType::Kniffel => "KNIFFEL"@,
        BookingType::Chance => "CHANCE"@,
    }
}

/// The fixed tag of each phase in the stored form.
pub open spec fn state_token(st: GameState) -> Seq<char> {
    match st {
        GameState::Roll => "Roll"@,
        GameState::Book => "Book"@,
        GameState::Ended => "Ended"@,
    }
}

/// Two different categories never share a tag.
pub proof fn lemma_booking_tokens_injective(a: BookingType, b: BookingType)
    requires
        booking_token(a) == booking_token(b),
    ensures
        a == b,
{
    reveal_strlit("ONES");
    reveal_strlit("TWOS");
    reveal_strlit("THREES");
    reveal_strlit("FOURS");
    reveal_strlit("FIVES");
    reveal_strlit("SIXES");
    reveal_strlit("THREE_OF_A_KIND");
    reveal_strlit("FOUR_OF_A_KIND");
    reveal_strlit("FULL_HOUSE");
    reveal_strlit("SMALL_STRAIGHT");
    reveal_strlit("LARGE_STRAIGHT");
    reveal_strlit("KNIFFEL");
    reveal_strlit("CHANCE");
    assert(("ONES"@).len() == 4 && ("ONES"@)[0] == 'O' && ("ONES"@)[1] == 'N');
    assert(("TWOS"@).len() == 4 && ("TWOS"@)[0] == 'T' && ("TWOS"@)[1] == 'W');
    assert(("THREES"@).len() == 6 && ("THREES"@)[0] == 'T' && ("THREES"@)[1] == 'H');
    assert(("FOURS"@).len() == 5 && ("FOURS"@)[0] == 'F' && ("FOURS"@)[1] == 'O');
    assert(("FIVES"@).len() == 5 && ("FIVES"@)[0] == 'F' && ("FIVES"@)[1] == 'I');
    assert(("SIXES"@).len() == 5 && ("SIXES"@)[0] == 'S' && ("SIXES"@)[1] == 'I');
    assert(("THREE_OF_A_KIND"@).len() == 15);
    assert(("FOUR_OF_A_KIND"@).len() == 14 && ("FOUR_OF_A_KIND"@)[0] == 'F');
    assert(("FULL_HOUSE"@).len() == 10);
    assert(("SMALL_STRAIGHT"@).len() == 14 && ("SMALL_STRAIGHT"@)[0] == 'S');
    assert(("LARGE_STRAIGHT"@).len() == 14 && ("LARGE_STRAIGHT"@)[0] == 'L');
    assert(("KNIFFEL"@).len() == 7);
    assert(("CHANCE"@).len() == 6 && ("CHANCE"@)[0] == 'C');
}

/// No category tag contains the comma that separates stored tags.
pub proof fn lemma_booking_token_no_comma(bt: BookingType)
    ensures
        forall|i: int| 0 <= i < booking_token(bt).len() ==> booking_token(bt)[i] != ',',
        booking_token(bt).len() >= 1,
{
    reveal_strlit("ONES");
    reveal_strlit("TWOS");
    reveal_strlit("THREES");
    reveal_strlit("FOURS");
    reveal_strlit("FIVES");
    reveal_strlit("SIXES");
    reveal_strlit("THREE_OF_A_KIND");
    reveal_strlit("FOUR_OF_A_KIND");
    reveal_strlit("FULL_HOUSE");
    reveal_strlit("SMALL_STRAIGHT");
    reveal_strlit("LARGE_STRAIGHT");
    reveal_strlit("KNIFFEL");
    reveal_strlit("CHANCE");
}

/// Whether two string slices hold the same characters.
fn str_eq(a: &str, b: &str) -> (r: bool)
    ensures
        r == (a@ == b@),
{
    let sa = a.to_owned();
    let sb = b.to_owned();
    sa == sb
}

impl BookingType {
    /// The tag this category carries in the stored form.
    pub fn as_token(&self) -> (t: String)
        ensures
            t@ == booking_token(*self),
    {
        match self {
            BookingType::Ones => String::from_str("ONES"),
            BookingType::Twos => String::from_str("TWOS"),
            BookingType::Threes => String::from_str("THREES"),
            BookingType::Fours => String::from_str("FOURS"),
            BookingType::Fives => String::from_str("FIVES"),
            BookingType::Sixes => String::from_str("SIXES"),
            BookingType::ThreeOfAKind => String::from_str("THREE_OF_A_KIND"),
            BookingType::FourOfAKind => String::from_str("FOUR_OF_A_KIND"),
            BookingType::FullHouse => String::from_str("FULL_HOUSE"),
            BookingType::SmallStraight => String::from_str("SMALL_STRAIGHT"),
            BookingType::LargeStraight => String::from_str("LARGE_STRAIGHT"),
            BookingType::Kniffel => String::from_str("KNIFFEL"),
            BookingType::Chance => String::from_str("CHANCE"),
        }
    }

    /// The category a stored tag stands for, if any.
    pub fn from_token(s: &str) -> (r: Option<BookingType>)
        ensures
            r matches Some(bt) ==> s@ == booking_token(bt),
            r is None ==> forall|bt: BookingType| s@ != booking_token(bt),
    {
        if str_eq(s, "ONES") {
            Some(BookingType::Ones)
        } else if str_eq(s, "TWOS") {
            Some(BookingType::Twos)
        } else if str_eq(s, "THREES") {
            Some(BookingType::Threes)
        } else if str_eq(s, "FOURS") {
            Some(BookingType::Fours)
        } else if str_eq(s, "FIVES") {
            Some(BookingType::Fives)
        } else if str_eq(s, "SIXES") {
            Some(BookingType::Sixes)
        } else if str_eq(s, "THREE_OF_A_KIND") {
            Some(BookingType::ThreeOfAKind)
        } else if str_eq(s, "FOUR_OF_A_KIND") {
            Some(BookingType::FourOfAKind)
        } else if str_eq(s, "FULL_HOUSE") {
            Some(BookingType::FullHouse)
        } else if str_eq(s, "SMALL_STRAIGHT") {
            Some(BookingType::SmallStraight)
        } else if str_eq(s, "LARGE_STRAIGHT") {
            Some(BookingType::LargeStraight)
        } else if str_eq(s, "KNIFFEL") {
            Some(BookingType::Kniffel)
        } else if str_eq(s, "CHANCE") {
            Some(BookingType::Chance)
        } else {
            None
        }
    }
}

impl GameState {
    /// The tag this phase carries in the stored form.
    pub fn as_token(&self) -> (t: String)
        ensures
            t@ == state_token(*self),
    {
        match self {
            GameState::Roll => String::from_str("Roll"),
            GameState::Book => String::from_str("Book"),
            GameState::Ended => String::from_str("Ended"),
        }
    }

    /// The phase a stored tag stands for, if any.
    pub fn from_token(s: &str) -> (r: Option<GameState>)
        ensures
            r == parse_state(s@),
    {
        proof {
            reveal_strlit("Roll");
            reveal_strlit("Book");
            reveal_strlit("Ended");
            assert(("Roll"@).len() == 4 && ("Roll"@)[0] == 'R');
            assert(("Book"@).len() == 4 && ("Book"@)[0] == 'B');
            assert(("Ended"@).len() == 5);
        }
        if str_eq(s, "Roll") {
            Some(GameState::Roll)
        } else if str_eq(s, "Book") {
            Some(GameState::Book)
        } else if str_eq(s, "Ended") {
            Some(GameState::Ended)
        } else {
            None
        }
    }
}

/// The digit character a die value is stored as.
pub open spec fn dice_char(v: i32) -> char {
    if v == 0 {
        '0'
    } else if v == 1 {
        '1'
    } else if v == 2 {
        '2'
    } else if v == 3 {
        '3'
    } else if v == 4 {
        '4'
    } else if v == 5 {
        '5'
    } else {
        '6'
    }
}

/// The die value a stored character stands for, or -1 for anything else.
pub open spec fn dice_val(c: char) -> i32 {
    if c == '0' {
        0
    } else if c == '1' {
        1
    } else if c == '2' {
        2
    } else if c == '3' {
        3
    } else if c == '4' {
        4
    } else if c == '5' {
        5
    } else if c == '6' {
        6
    } else {
        -1i32
    }
}

/// The stored form of a hand: five digits joined by commas.
pub open spec fn spec_encode_dice(s: Seq<i32>) -> Seq<char> {
    seq![
        dice_char(s[0]),
        ',',
        dice_char(s[1]),
        ',',
        dice_char(s[2]),
        ',',
        dice_char(s[3]),
        ',',
        dice_char(s[4]),
    ]
}

/// Whether a string is the stored form of some five dice.
pub open spec fn valid_dice_str(s: Seq<char>) -> bool {
    &&& s.len() == 9
    &&& s[1] == ',' && s[3] == ',' && s[5] == ',' && s[7] == ','
    &&& dice_val(s[0]) >= 0 && dice_val(s[2]) >= 0 && dice_val(s[4]) >= 0 && dice_val(s[6]) >= 0
        && dice_val(s[8]) >= 0
}

/// The five dice a valid stored form stands for.
pub open spec fn spec_parse_dice(s: Seq<char>) -> Seq<i32> {
    Seq::new(5, |k: int| dice_val(s[2 * k]))
}

/// The one-character string a die value is stored as.
fn digit_str(v: i32) -> (r: &'static str)
    requires
        0 <= v <= 6,
    ensures
        r@ =~= seq![dice_char(v)],
{
    proof {
        reveal_strlit("0");
        reveal_strlit("1");
        reveal_strlit("2");
        reveal_strlit("3");
        reveal_strlit("4");
        reveal_strlit("5");
        reveal_strlit("6");
    }
    if v == 0 {
        "0"
    } else if v == 1 {
        "1"
    } else if v == 2 {
        "2"
    } else if v == 3 {
        "3"
    } else if v == 4 {
        "4"
    } else if v == 5 {
        "5"
    } else {
        "6"
    }
}

/// Renders a hand in its stored form: five digits joined by commas.
pub fn encode_dice(dice: &[i32; 5]) -> (r: String)
    requires
        forall|i: int| 0 <= i < 5 ==> 0 <= #[trigger] dice@[i] <= 6,
    ensures
        r@ == spec_encode_dice(dice@),
        valid_dice_str(r@),
        spec_parse_dice(r@) =~= dice@,
{
    proof {
        reveal_strlit(",");
    }
    let mut out = String::new();
    out.append(digit_str(dice[0]));
    out.append(",");
    out.append(digit_str(dice[1]));
    out.append(",");
    out.append(digit_str(dice[2]));
    out.append(",");
    out.append(digit_str(dice[3]));
    out.append(",");
    out.append(digit_str(dice[4]));
    proof {
        assert(out@ =~= spec_encode_dice(dice@));
    }
    out
}

/// Reads a hand back from its stored form; anything malformed is rejected.
pub fn parse_dice(s: &str) -> (r: Option<[i32; 5]>)
    ensures
        r is Some <==> valid_dice_str(s@),
        r matches Some(d) ==> d@ =~= spec_parse_dice(s@),
{
    let n = s.unicode_len();
    if n != 9 {
        return None;
    }
    let mut d: [i32; 5] = [0;5];
    let mut k: usize = 0;
    while k < 5
        invariant
            0 <= k <= 5,
            s@.len() == 9,
            k >= 1 ==> d@[0] == dice_val(s@[0]) && d@[0] >= 0 && s@[1] == ',',
            k >= 2 ==> d@[1] == dice_val(s@[2]) && d@[1] >= 0 && s@[3] == ',',
            k >= 3 ==> d@[2] == dice_val(s@[4]) && d@[2] >= 0 && s@[5] == ',',
            k >= 4 ==> d@[3] == dice_val(s@[6]) && d@[3] >= 0 && s@[7] == ',',
            k >= 5 ==> d@[4] == dice_val(s@[8]) && d@[4] >= 0,
        decreases 5 - k,
    {
        let c = s.get_char(2 * k);
        let v = char_to_die(c);
        if v < 0 {
            return None;
        }
        if k < 4 {
            let sep = s.get_char(2 * k + 1);
            if sep != ',' {
                return None;
            }
        }
        d[k] = v;
        k = k + 1;
    }
    proof {
        assert(d@ =~= spec_parse_dice(s@));
    }
    Some(d)
}

/// The die value a character stands for, or -1.
fn char_to_die(c: char) -> (v: i32)
    ensures
        v == dice_val(c),
{
    if c == '0' {
        0
    } else if c == '1' {
        1
    } else if c == '2' {
        2
    } else if c == '3' {
        3
    } else if c == '4' {
        4
    } else if c == '5' {
        5
    } else if c == '6' {
        6
    } else {
        -1
    }
}




/// Pieces joined with a comma between consecutive pieces.
pub open spec fn spec_join(pieces: Seq<Seq<char>>) -> Seq<char>
    decreases pieces.len(),
{
    if pieces.len() == 0 {
        Seq::empty()
    } else if pieces.len() == 1 {
        pieces[0]
    } else {
        pieces[0] + seq![','] + spec_join(pieces.drop_first())
    }
}

/// A string cut at every comma; a string without commas is one piece, so the
/// result always holds at least one piece.
pub open spec fn spec_split(s: Seq<char>) -> Seq<Seq<char>>
    decreases s.len(),
{
    if s.len() == 0 {
        seq![Seq::<char>::empty()]
    } else if s[0] == ',' {
        seq![Seq::<char>::empty()] + spec_split(s.drop_first())
    } else {
        let rest = spec_split(s.drop_first());
        rest.update(0, seq![s[0]] + rest[0])
    }
}

/// A split always yields at least one piece.
pub proof fn lemma_split_len(s: Seq<char>)
    ensures
        spec_split(s).len() >= 1,
    decreases s.len(),
{
    if s.len() > 0 {
        lemma_split_len(s.drop_first());
    }
}

/// Splitting a comma-free string yields that one piece.
pub proof fn lemma_split_no_comma(p: Seq<char>)
    requires
        forall|j: int| 0 <= j < p.len() ==> p[j] != ',',
    ensures
        spec_split(p) == seq![p],
    decreases p.len(),
{
    if p.len() == 0 {
        assert(spec_split(p) =~~= seq![p]);
    } else {
        lemma_split_no_comma(p.drop_first());
        assert(seq![p[0]] + p.drop_first() =~= p);
        assert(spec_split(p) =~~= seq![p]);
    }
}

/// Splitting after a leading comma-free piece and its comma cuts exactly
/// there.
pub proof fn lemma_split_prepend(p: Seq<char>, s: Seq<char>)
    requires
        forall|j: int| 0 <= j < p.len() ==> p[j] != ',',
    ensures
        spec_split(p + seq![','] + s) == seq![p] + spec_split(s),
    decreases p.len(),
{
    let t = p + seq![','] + s;
    if p.len() == 0 {
        assert(t.drop_first() =~= s);
        assert(spec_split(t) =~~= seq![p] + spec_split(s));
    } else {
        lemma_split_prepend(p.drop_first(), s);
        assert(t.drop_first() =~= p.drop_first() + seq![','] + s);
        lemma_split_len(t.drop_first());
        assert(spec_split(t.drop_first())[0] == p.drop_first());
        assert(seq![t[0]] + p.drop_first() =~= p);
        assert(spec_split(t) =~~= seq![p] + spec_split(s));
    }
}

/// Splitting a join of comma-free pieces recovers exactly the pieces.
pub proof fn lemma_split_join(ps: Seq<Seq<char>>)
    requires
        ps.len() >= 1,
        forall|i: int, j: int| 0 <= i < ps.len() && 0 <= j < ps[i].len() ==> ps[i][j] != ',',
    ensures
        spec_split(spec_join(ps)) == ps,
    decreases ps.len(),
{
    if ps.len() == 1 {
        lemma_split_no_comma(ps[0]);
        assert(spec_split(spec_join(ps)) =~~= ps);
    } else {
        lemma_split_join(ps.drop_first());
        lemma_split_prepend(ps[0], spec_join(ps.drop_first()));
        assert(spec_split(spec_join(ps)) =~~= ps);
    }
}

/// Appending one more piece appends a comma and the piece (or is the piece
/// itself when nothing was there).
pub proof fn lemma_join_push(ps: Seq<Seq<char>>, t: Seq<char>)
    ensures
        spec_join(ps.push(t)) == if ps.len() == 0 {
            t
        } else {
            spec_join(ps) + seq![','] + t
        },
    decreases ps.len(),
{
    if ps.len() == 0 {
        assert(ps.push(t).len() == 1);
        assert(spec_join(ps.push(t)) == ps.push(t)[0]);
    } else if ps.len() == 1 {
        let q = ps.push(t);
        assert(q.len() == 2);
        assert(q.drop_first() =~~= seq![t]);
        assert(q.drop_first().len() == 1 && q.drop_first()[0] == t);
        assert(spec_join(q.drop_first()) == t);
        assert(spec_join(q) == q[0] + seq![','] + spec_join(q.drop_first()));
        assert(q[0] == ps[0]);
        assert(spec_join(ps) == ps[0]);
        assert(spec_join(q) =~= spec_join(ps) + seq![','] + t);
    } else {
        lemma_join_push(ps.drop_first(), t);
        assert(ps.push(t).drop_first() =~~= ps.drop_first().push(t));
        assert(spec_join(ps.push(t)) =~= spec_join(ps) + seq![','] + t);
    }
}

/// The views of a sequence of strings.
pub open spec fn piece_views(v: Seq<String>) -> Seq<Seq<char>> {
    Seq::new(v.len(), |i: int| v[i]@)
}

/// Cuts a string at every comma.
pub fn split_commas(s: &str) -> (r: Vec<String>)
    ensures
        piece_views(r@) == spec_split(s@),
        r@.len() >= 1,
{
    let len = s.unicode_len();
    let mut done: Vec<String> = Vec::new();
    let mut start: usize = 0;
    let mut i: usize = 0;
    proof {
        reveal_strlit(",");
    }
    while i < len
        invariant
            0 <= start <= i <= len,
            len == s@.len(),
            spec_join(piece_views(done@).push(s@.subrange(start as int, i as int))) == s@.take(
                i as int,
            ),
            forall|p: int, j: int|
                0 <= p < done@.len() && 0 <= j < done@[p]@.len() ==> #[trigger] done@[p]@[j]
                    != ',',
            forall|j: int| start <= j < i ==> s@[j] != ',',
        decreases len - i,
    {
        let ghost pieces = piece_views(done@).push(s@.subrange(start as int, i as int));
        let c = s.get_char(i);
        if c == ',' {
            let piece = s.substring_char(start, i);
            done.push(piece.to_owned());
            proof {
                assert(piece_views(done@) =~~= pieces);
                lemma_join_push(pieces, Seq::<char>::empty());
                assert(pieces.push(Seq::<char>::empty()) =~~= piece_views(done@).push(
                    s@.subrange(i as int + 1, i as int + 1),
                ));
                assert(spec_join(pieces) + seq![','] + Seq::<char>::empty() =~= s@.take(
                    i as int + 1,
                ));
            }
            start = i + 1;
        } else {
            proof {
                let extended = pieces.update(
                    pieces.len() - 1,
                    s@.subrange(start as int, i as int + 1),
                );
                assert(s@.subrange(start as int, i as int + 1) =~= s@.subrange(
                    start as int,
                    i as int,
                ).push(s@[i as int]));
                lemma_join_extend_last(pieces, s@[i as int]);
                assert(extended =~~= piece_views(done@).push(
                    s@.subrange(start as int, i as int + 1),
                ));
                assert(spec_join(pieces).push(s@[i as int]) =~= s@.take(i as int + 1));
            }
        }
        i = i + 1;
    }
    let last = s.substring_char(start, len);
    let ghost d0 = done@;
    done.push(last.to_owned());
    proof {
        assert(s@.take(len as int) =~= s@);
        assert(piece_views(done@) =~~= piece_views(d0).push(
            s@.subrange(start as int, len as int),
        ));
        lemma_split_join(piece_views(done@));
    }
    done
}

/// Extending the last piece by one character extends the join by it.
pub proof fn lemma_join_extend_last(ps: Seq<Seq<char>>, c: char)
    requires
        ps.len() >= 1,
    ensures
        spec_join(ps.update(ps.len() - 1, ps.last().push(c))) == spec_join(ps).push(c),
    decreases ps.len(),
{
    let ps2 = ps.update(ps.len() - 1, ps.last().push(c));
    if ps.len() == 1 {
        assert(spec_join(ps2) == ps.last().push(c));
    } else {
        lemma_join_extend_last(ps.drop_first(), c);
        assert(ps2.drop_first() =~~= ps.drop_first().update(
            ps.drop_first().len() - 1,
            ps.drop_first().last().push(c),
        ));
        assert(ps2[0] == ps[0]);
        assert(ps[0] + seq![','] + spec_join(ps.drop_first()).push(c) =~= (ps[0] + seq![',']
            + spec_join(ps.drop_first())).push(c));
    }
}

/// The tags of the categories marked used among the first `i`, in table
/// order.
pub open spec fn used_tokens_upto(used: Seq<bool>, i: int) -> Seq<Seq<char>>
    decreases i,
{
    if i <= 0 {
        Seq::empty()
    } else if used[i - 1] {
        used_tokens_upto(used, i - 1).push(booking_token(booking_of_index(i - 1)))
    } else {
        used_tokens_upto(used, i - 1)
    }
}

/// The usage table a stored tag list stands for: entry `k` is set exactly
/// when the list, cut at commas, holds the tag of category `k`.
pub open spec fn used_flags_of(s: Seq<char>) -> Seq<bool> {
    Seq::new(13, |k: int| spec_split(s).contains(booking_token(booking_of_index(k))))
}

/// The tag list holds exactly the tags of the used categories below `i`.
pub proof fn lemma_used_tokens_membership(used: Seq<bool>, i: int, bt: BookingType)
    requires
        0 <= i <= 13,
    ensures
        used_tokens_upto(used, i).contains(booking_token(bt)) <==> (cat_index(bt) < i && used[
            cat_index(bt)
        ]),
    decreases i,
{
    lemma_cat_index_inverse(bt);
    if i > 0 {
        lemma_used_tokens_membership(used, i - 1, bt);
        let prev = used_tokens_upto(used, i - 1);
        let cur = used_tokens_upto(used, i);
        let tokn = booking_token(bt);
        if used[i - 1] {
            let last = booking_token(booking_of_index(i - 1));
            if cur.contains(tokn) {
                let idx = choose|idx: int| 0 <= idx < cur.len() && cur[idx] == tokn;
                if idx < prev.len() {
                    assert(prev[idx] == tokn);
                    assert(prev.contains(tokn));
                } else {
                    lemma_booking_tokens_injective(bt, booking_of_index(i - 1));
                }
            }
            if cat_index(bt) < i && used[cat_index(bt)] {
                if cat_index(bt) < i - 1 {
                    let idx = choose|idx: int| 0 <= idx < prev.len() && prev[idx] == tokn;
                    assert(cur[idx] == tokn);
                    assert(cur.contains(tokn));
                } else {
                    assert(booking_of_index(i - 1) == bt);
                    assert(cur[cur.len() - 1] == tokn);
                    assert(cur.contains(tokn));
                }
            }
        } else {
            if cat_index(bt) == i - 1 {
                assert(!used[cat_index(bt)]);
            }
        }
    }
}

/// No tag in the list contains a comma.
pub proof fn lemma_used_tokens_no_comma(used: Seq<bool>, i: int)
    requires
        0 <= i <= 13,
    ensures
        forall|p: int, j: int|
            0 <= p < used_tokens_upto(used, i).len() && 0 <= j < used_tokens_upto(used, i)[p].len()
                ==> #[trigger] used_tokens_upto(used, i)[p][j] != ',',
    decreases i,
{
    if i > 0 {
        lemma_used_tokens_no_comma(used, i - 1);
        let prev = used_tokens_upto(used, i - 1);
        let cur = used_tokens_upto(used, i);
        if used[i - 1] {
            lemma_booking_token_no_comma(booking_of_index(i - 1));
            assert forall|p: int, j: int|
                0 <= p < cur.len() && 0 <= j < cur[p].len() implies #[trigger] cur[p][j] != ',' by {
                if p < prev.len() {
                    assert(cur[p] == prev[p]);
                } else {
                    assert(cur[p] == booking_token(booking_of_index(i - 1)));
                }
            }
        }
    }
}

/// Writing the used categories as a comma-joined tag list and reading the
/// list back yields the same usage table.
pub proof fn lemma_used_round_trip(used: Seq<bool>)
    requires
        used.len() == 13,
    ensures
        used_flags_of(spec_join(used_tokens_upto(used, 13))) =~= used,
{
    let ts = used_tokens_upto(used, 13);
    lemma_used_tokens_no_comma(used, 13);
    if ts.len() == 0 {
        assert(spec_join(ts) =~= Seq::<char>::empty());
        assert forall|k: int| 0 <= k < 13 implies used_flags_of(spec_join(ts))[k] == used[k] by {
            let bt = booking_of_index(k);
            lemma_cat_index_inverse(bt);
            lemma_used_tokens_membership(used, 13, bt);
            lemma_booking_token_no_comma(bt);
            lemma_index_booking_inverse(k);
            assert(!used[k]);
            let pieces = spec_split(spec_join(ts));
            assert(pieces =~~= seq![Seq::<char>::empty()]);
            if pieces.contains(booking_token(bt)) {
                let idx = choose|idx: int|
                    0 <= idx < pieces.len() && pieces[idx] == booking_token(bt);
                assert(pieces[idx].len() == 0);
            }
        }
    } else {
        lemma_split_join(ts);
        assert forall|k: int| 0 <= k < 13 implies used_flags_of(spec_join(ts))[k] == used[k] by {
            let bt = booking_of_index(k);
            lemma_cat_index_inverse(bt);
            lemma_used_tokens_membership(used, 13, bt);
            lemma_index_booking_inverse(k);
        }
    }
}

/// The phase a stored tag stands for, if any.
pub open spec fn parse_state(s: Seq<char>) -> Option<GameState> {
    if s == state_token(GameState::Roll) {
        Some(GameState::Roll)
    } else if s == state_token(GameState::Book) {
        Some(GameState::Book)
    } else if s == state_token(GameState::Ended) {
        Some(GameState::Ended)
    } else {
        None
    }
}

/// The stored form of one player: the name, the score, and the used
/// categories as a comma-joined list of tags.
#[derive(Debug, Clone)]
pub struct PlayerRecord {
    pub name: String,
    pub score: i32,
    pub used_booking_types: String,
}

/// The stored form of one game: the opaque identifier, the roll counter, the
/// phase tag, the five dice as a comma-joined list of digits, and the
/// current player's name.
#[derive(Debug, Clone)]
pub struct GameRecord {
    pub game_id: String,
    pub roll_round: i32,
    pub stage: String,
    pub dice_rolls: String,
    pub current_player: String,
}

/// One row of the name-and-score listing handed to callers.
#[derive(Debug, Clone)]
pub struct PlayerData {
    pub name: String,
    pub score: i32,
}

impl PlayerData {
    /// Bundles a player's name with their current score.
    pub fn new(name: String, score: i32) -> (r: Self)
        ensures
            r.name == name,
            r.score == score,
    {
        PlayerData { name, score }
    }
}

/// Whether a stored tag list lies at position `k` of the pieces before `i`.
pub open spec fn token_in_prefix(ps: Seq<Seq<char>>, i: int, k: int) -> bool {
    exists|j: int| 0 <= j < i && ps[j] == booking_token(booking_of_index(k))
}

impl KniffelPlayer {
    /// Renders the player in the stored form: the used categories become a
    /// comma-joined tag list, which reading back yields the same table.
    pub fn to_record(&self) -> (r: PlayerRecord)
        ensures
            r.name == self.name,
            r.score == self.score,
            r.used_booking_types@ == spec_join(used_tokens_upto(self.used_booking_types@, 13)),
            used_flags_of(r.used_booking_types@) =~= self.used_booking_types@,
    {
        proof {
            reveal_strlit(",");
        }
        let mut out = String::new();
        let mut first: bool = true;
        let mut i: usize = 0;
        while i < 13
            invariant
                0 <= i <= 13,
                out@ == spec_join(used_tokens_upto(self.used_booking_types@, i as int)),
                first == (used_tokens_upto(self.used_booking_types@, i as int).len() == 0),
            decreases 13 - i,
        {
            let ghost toks = used_tokens_upto(self.used_booking_types@, i as int);
            if self.used_booking_types[i] {
                if !first {
                    out.append(",");
                }
                let bt = BookingType::from_index(i);
                let t = bt.as_token();
                out.append(t.as_str());
                first = false;
                proof {
                    reveal_strlit(",");
                    assert((","@) =~= seq![',']);
                    lemma_join_push(toks, booking_token(booking_of_index(i as int)));
                    assert(used_tokens_upto(self.used_booking_types@, i as int + 1) =~~= toks.push(
                        booking_token(booking_of_index(i as int)),
                    ));
                    if toks.len() == 0 {
                        assert(out@ =~= spec_join(
                            used_tokens_upto(self.used_booking_types@, i as int + 1),
                        ));
                    } else {
                        assert(out@ =~= spec_join(
                            used_tokens_upto(self.used_booking_types@, i as int + 1),
                        ));
                    }
                }
            }
            i = i + 1;
        }
        proof {
            lemma_used_round_trip(self.used_booking_types@);
        }
        PlayerRecord { name: self.name.clone(), score: self.score, used_booking_types: out }
    }

    /// Reads a player back from the stored form: every piece of the tag list
    /// that is a category tag marks that category used; anything else is
    /// dropped, as an unknown tag cannot be booked again anyway.
    pub fn from_record(rec: &PlayerRecord) -> (p: KniffelPlayer)
        ensures
            p.name == rec.name,
            p.score == rec.score,
            p.used_booking_types@ =~= used_flags_of(rec.used_booking_types@),
    {
        let pieces = split_commas(rec.used_booking_types.as_str());
        let ghost ps = piece_views(pieces@);
        let mut used: [bool; 13] = [false;13];
        let mut i: usize = 0;
        while i < pieces.len()
            invariant
                0 <= i <= pieces@.len(),
                ps == piece_views(pieces@),
                ps == spec_split(rec.used_booking_types@),
                forall|k: int|
                    0 <= k < 13 ==> #[trigger] used@[k] == token_in_prefix(ps, i as int, k),
            decreases pieces@.len() - i,
        {
            let piece = &pieces[i];
            let parsed = BookingType::from_token(piece.as_str());
            let ghost old_used = used@;
            match parsed {
                Some(bt) => {
                    let idx = bt.index();
                    used[idx] = true;
                    proof {
                        lemma_cat_index_inverse(bt);
                        assert(ps[i as int] == booking_token(bt));
                        assert forall|k: int|
                            0 <= k < 13 implies used@[k] == token_in_prefix(
                            ps,
                            i as int + 1,
                            k,
                        ) by {
                            let btk = booking_of_index(k);
                            lemma_cat_index_inverse(btk);
                            lemma_index_booking_inverse(k);
                            if k == cat_index(bt) {
                                assert(ps[i as int] == booking_token(btk)) by {
                                    lemma_cat_index_inverse(bt);
                                    assert(btk == bt);
                                }
                                assert(token_in_prefix(ps, i as int + 1, k));
                            } else {
                                if token_in_prefix(ps, i as int + 1, k) {
                                    let j = choose|j: int|
                                        0 <= j < i + 1 && ps[j] == booking_token(btk);
                                    if j == i {
                                        lemma_booking_tokens_injective(bt, btk);
                                        assert(false);
                                    } else {
                                        assert(token_in_prefix(ps, i as int, k));
                                    }
                                } else {
                                }
                                if token_in_prefix(ps, i as int, k) {
                                    let j = choose|j: int|
                                        0 <= j < i && ps[j] == booking_token(btk);
                                    assert(token_in_prefix(ps, i as int + 1, k));
                                }
                            }
                        }
                    }
                },
                None => {
                    proof {
                        assert forall|k: int|
                            0 <= k < 13 implies used@[k] == token_in_prefix(
                            ps,
                            i as int + 1,
                            k,
                        ) by {
                            let btk = booking_of_index(k);
                            if token_in_prefix(ps, i as int + 1, k) {
                                let j = choose|j: int|
                                    0 <= j < i + 1 && ps[j] == booking_token(btk);
                                if j == i {
                                    assert(ps[i as int] != booking_token(btk));
                                    assert(false);
                                } else {
                                    assert(token_in_prefix(ps, i as int, k));
                                }
                            }
                            if token_in_prefix(ps, i as int, k) {
                                let j = choose|j: int| 0 <= j < i && ps[j] == booking_token(btk);
                                assert(token_in_prefix(ps, i as int + 1, k));
                            }
                        }
                    }
                },
            }
            i = i + 1;
        }
        proof {
            assert forall|k: int|
                0 <= k < 13 implies used@[k] == used_flags_of(rec.used_booking_types@)[k] by {
                let btk = booking_of_index(k);
                if token_in_prefix(ps, ps.len() as int, k) {
                    let j = choose|j: int| 0 <= j < ps.len() && ps[j] == booking_token(btk);
                    assert(ps.contains(booking_token(btk)));
                }
                if ps.contains(booking_token(btk)) {
                    let j = choose|j: int| 0 <= j < ps.len() && ps[j] == booking_token(btk);
                    assert(token_in_prefix(ps, ps.len() as int, k));
                }
            }
        }
        KniffelPlayer { name: rec.name.clone(), score: rec.score, used_booking_types: used }
    }
}

/// The stored score must be non-negative and explainable by the stored used
/// categories, each booking being worth at most 50.
pub open spec fn valid_player_record(rec: PlayerRecord) -> bool {
    0 <= rec.score <= 50 * used_count_of(used_flags_of(rec.used_booking_types@))
}

/// Everything a stored game must satisfy to load back into a well-formed
/// engine state.
pub open spec fn valid_game_record(game: GameRecord, players: Seq<PlayerRecord>) -> bool {
    &&& valid_dice_str(game.dice_rolls@)
    &&& (forall|k: int| 0 <= k < 5 ==> 1 <= #[trigger] spec_parse_dice(game.dice_rolls@)[k] <= 6)
    &&& parse_state(game.stage@) is Some
    &&& 1 <= game.roll_round <= 3
    &&& (parse_state(game.stage@) == Some(GameState::Roll) ==> game.roll_round <= 2)
    &&& players.len() >= 1
    &&& (forall|i: int| 0 <= i < players.len() ==> valid_player_record(#[trigger] players[i]))
    &&& (forall|i: int, j: int| 0 <= i < j < players.len() ==> players[i].name@ != players[j].name@)
    &&& (exists|i: int| 0 <= i < players.len() && (#[trigger] players[i].name@) == game.current_player@)
}

impl KniffelGame {
    /// Renders the game in its stored form.
    pub fn to_record(&self) -> (r: GameRecord)
        requires
            wf_game(*self),
        ensures
            r.game_id == self.game_id,
            r.roll_round == self.roll_round,
            r.stage@ == state_token(self.state),
            r.dice_rolls@ == spec_encode_dice(self.dice_rolls@),
            spec_parse_dice(r.dice_rolls@) =~= self.dice_rolls@,
            valid_dice_str(r.dice_rolls@),
            r.current_player == self.players@[self.current_player as int].name,
    {
        GameRecord {
            game_id: self.game_id.clone(),
            roll_round: self.roll_round,
            stage: self.state.as_token(),
            dice_rolls: encode_dice(&self.dice_rolls),
            current_player: self.players[self.current_player].name.clone(),
        }
    }

    /// Loads a game back from its stored form. Anything that could not have
    /// come from a well-formed game is rejected.
    pub fn from_db(game: GameRecord, players: &[PlayerRecord]) -> (r: Option<KniffelGame>)
        ensures
            r is Some <==> valid_game_record(game, players@),
            r matches Some(g) ==> ({
                &&& wf_game(g)
                &&& g.game_id == game.game_id
                &&& g.roll_round == game.roll_round
                &&& parse_state(game.stage@) == Some(g.state)
                &&& g.dice_rolls@ == spec_parse_dice(game.dice_rolls@)
                &&& g.players@.len() == players@.len()
                &&& (forall|i: int|
                    0 <= i < players@.len() ==> (#[trigger] g.players@[i]).name
                        == players@[i].name && g.players@[i].score == players@[i].score
                        && g.players@[i].used_booking_types@ == used_flags_of(
                        players@[i].used_booking_types@,
                    ))
                &&& g.current_player < g.players@.len()
                &&& g.players@[g.current_player as int].name@ == game.current_player@
            }),
    {
        let dice = match parse_dice(game.dice_rolls.as_str()) {
            Some(d) => d,
            None => { return None },
        };
        if dice[0] < 1 || dice[1] < 1 || dice[2] < 1 || dice[3] < 1 || dice[4] < 1 {
            return None;
        }
        let state = match GameState::from_token(game.stage.as_str()) {
            Some(st) => st,
            None => { return None },
        };
        if game.roll_round < 1 || game.roll_round > 3 {
            return None;
        }
        if state == GameState::Roll && game.roll_round > 2 {
            return None;
        }
        let n = players.len();
        if n == 0 {
            return None;
        }
        let mut ps: Vec<KniffelPlayer> = Vec::new();
        let mut i: usize = 0;
        while i < n
            invariant
                0 <= i <= n,
                n == players@.len(),
                ps@.len() == i,
                forall|j: int|
                    0 <= j < i ==> (#[trigger] ps@[j]).name == players@[j].name
                        && ps@[j].score == players@[j].score && ps@[j].used_booking_types@
                        == used_flags_of(players@[j].used_booking_types@),
                forall|j: int| 0 <= j < i ==> wf_player(#[trigger] ps@[j]),
                forall|j: int| 0 <= j < i ==> valid_player_record(#[trigger] players@[j]),
            decreases n - i,
        {
            let p = KniffelPlayer::from_record(&players[i]);
            let cnt = p.used_count();
            if p.score < 0 || p.score > 50 * (cnt as i32) {
                return None;
            }
            ps.push(p);
            i = i + 1;
        }
        let mut a: usize = 0;
        while a < n
            invariant
                0 <= a <= n,
                n == players@.len() == ps@.len(),
                forall|j: int|
                    0 <= j < n ==> (#[trigger] ps@[j]).name == players@[j].name,
                forall|x: int, y: int|
                    0 <= x < y < n && x < a ==> players@[x].name@ != players@[y].name@,
            decreases n - a,
        {
            let mut b: usize = a + 1;
            while b < n
                invariant
                    0 <= a < n,
                    a < b <= n,
                    n == players@.len() == ps@.len(),
                    forall|j: int|
                        0 <= j < n ==> (#[trigger] ps@[j]).name == players@[j].name,
                    forall|x: int, y: int|
                        0 <= x < y < n && x < a ==> players@[x].name@ != players@[y].name@,
                    forall|y: int| a < y < b ==> players@[a as int].name@ != players@[y].name@,
                decreases n - b,
            {
                if ps[a].name == ps[b].name {
                    return None;
                }
                b = b + 1;
            }
            a = a + 1;
        }
        let mut idx: usize = 0;
        let mut found: bool = false;
        let mut c: usize = 0;
        while c < n
            invariant
                0 <= c <= n,
                n == players@.len() == ps@.len(),
                forall|j: int|
                    0 <= j < n ==> (#[trigger] ps@[j]).name == players@[j].name,
                found ==> idx < n && players@[idx as int].name@ == game.current_player@,
                !found ==> forall|j: int|
                    0 <= j < c ==> (#[trigger] players@[j].name@) != game.current_player@,
            decreases n - c,
        {
            if !found && ps[c].name == game.current_player {
                idx = c;
                found = true;
            }
            c = c + 1;
        }
        if !found {
            return None;
        }
        Some(
            KniffelGame {
                players: ps,
                game_id: game.game_id,
                roll_round: game.roll_round,
                current_player: idx,
                state,
                dice_rolls: dice,
            },
        )
    }
}

/// A stored hand reads back as the same five dice.
pub proof fn lemma_dice_round_trip(d: Seq<i32>)
    requires
        d.len() == 5,
        forall|i: int| 0 <= i < 5 ==> 0 <= #[trigger] d[i] <= 6,
    ensures
        valid_dice_str(spec_encode_dice(d)),
        spec_parse_dice(spec_encode_dice(d)) =~= d,
{
}

/// A stored phase tag reads back as the same phase.
pub proof fn lemma_state_round_trip(st: GameState)
    ensures
        parse_state(state_token(st)) == Some(st),
{
    reveal_strlit("Roll");
    reveal_strlit("Book");
    reveal_strlit("Ended");
    assert(("Roll"@).len() == 4 && ("Roll"@)[0] == 'R');
    assert(("Book"@).len() == 4 && ("Book"@)[0] == 'B');
    assert(("Ended"@).len() == 5);
}

/// The stored form of a well-formed game is always loadable: together with
/// the load contract this says that storing a game and loading it back
/// reproduces the identical logical state.
pub proof fn lemma_game_record_round_trip(g: KniffelGame, rec: GameRecord, precs: Seq<PlayerRecord>)
    requires
        wf_game(g),
        rec.roll_round == g.roll_round,
        rec.stage@ == state_token(g.state),
        rec.dice_rolls@ == spec_encode_dice(g.dice_rolls@),
        rec.current_player@ == g.players@[g.current_player as int].name@,
        precs.len() == g.players@.len(),
        forall|i: int|
            0 <= i < precs.len() ==> (#[trigger] precs[i]).name@ == g.players@[i].name@
                && precs[i].score == g.players@[i].score && precs[i].used_booking_types@
                == spec_join(used_tokens_upto(g.players@[i].used_booking_types@, 13)),
    ensures
        valid_game_record(rec, precs),
        spec_parse_dice(rec.dice_rolls@) =~= g.dice_rolls@,
        parse_state(rec.stage@) == Some(g.state),
        forall|i: int|
            0 <= i < precs.len() ==> used_flags_of((#[trigger] precs[i]).used_booking_types@)
                =~= g.players@[i].used_booking_types@,
{
    lemma_dice_round_trip(g.dice_rolls@);
    lemma_state_round_trip(g.state);
    assert forall|i: int|
        0 <= i < precs.len() implies used_flags_of((#[trigger] precs[i]).used_booking_types@)
        =~= g.players@[i].used_booking_types@ by {
        lemma_used_round_trip(g.players@[i].used_booking_types@);
    }
    assert forall|i: int| 0 <= i < precs.len() implies valid_player_record(#[trigger] precs[i]) by {
        assert(used_flags_of(precs[i].used_booking_types@) =~= g.players@[i].used_booking_types@);
        assert(wf_player(g.players@[i]));
    }
    assert(precs[g.current_player as int].name@ == rec.current_player@);
}

} // verus!
