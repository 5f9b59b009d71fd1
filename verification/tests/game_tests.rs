use kniffel::game_logic::BookingType;
use kniffel::game_logic::GameState;
use kniffel::game_logic::KniffelError;
use kniffel::game_logic::KniffelGame;
use kniffel::game_logic::KniffelPlayer;
use kniffel::records::GameRecord;
use kniffel::records::PlayerRecord;

const ALL_CATEGORIES: [BookingType; 13] = [
    BookingType::Ones,
    BookingType::Twos,
    BookingType::Threes,
    BookingType::Fours,
    BookingType::Fives,
    BookingType::Sixes,
    BookingType::ThreeOfAKind,
    BookingType::FourOfAKind,
    BookingType::FullHouse,
    BookingType::SmallStraight,
    BookingType::LargeStraight,
    BookingType::Kniffel,
    BookingType::Chance,
];

fn players(names: &[&str]) -> Vec<KniffelPlayer> {
    names.iter().map(|n| KniffelPlayer::new(&n.to_string())).collect()
}

fn game_with_dice(dice: &str, names: &[&str]) -> KniffelGame {
    let record = GameRecord {
        game_id: "id0".to_string(),
        roll_round: 1,
        stage: "Roll".to_string(),
        dice_rolls: dice.to_string(),
        current_player: names[0].to_string(),
    };
    let player_records: Vec<PlayerRecord> = names
        .iter()
        .map(|n| PlayerRecord {
            name: n.to_string(),
            score: 0,
            used_booking_types: String::new(),
        })
        .collect();
    KniffelGame::from_db(record, &player_records).expect("record should load")
}

#[test]
fn fresh_two_player_game_starts_rolled() {
    let game = KniffelGame::new(players(&["alice", "bob"])).unwrap();
    assert_eq!(game.state, GameState::Roll);
    assert_eq!(game.roll_round, 1);
    assert_eq!(game.players.len(), 2);
    assert_eq!(game.current_player, 0);
    assert_eq!(game.players[game.current_player].name, "alice");
    for d in game.dice_rolls.iter() {
        assert!((1..=6).contains(d));
    }
    assert_eq!(game.game_id.len(), 32);
}

#[test]
fn new_game_rejects_empty_and_duplicate_rosters() {
    assert_eq!(
        KniffelGame::new(players(&[])).unwrap_err(),
        KniffelError::InvalidPlayerList
    );
    assert_eq!(
        KniffelGame::new(players(&["alice", "bob", "alice"])).unwrap_err(),
        KniffelError::InvalidPlayerList
    );
}

#[test]
fn third_roll_forces_booking_phase() {
    let mut game = KniffelGame::new(players(&["alice", "bob"])).unwrap();
    assert_eq!(game.roll_round, 1);
    game.re_roll_dice(&[]).unwrap();
    assert_eq!(game.roll_round, 2);
    assert_eq!(game.state, GameState::Roll);
    game.re_roll_dice(&[]).unwrap();
    assert_eq!(game.roll_round, 3);
    assert_eq!(game.state, GameState::Book);
    // once the phase has advanced, further re-rolls are rejected
    assert_eq!(
        game.re_roll_dice(&[]).unwrap_err(),
        KniffelError::InvalidPhase
    );
}

#[test]
fn booking_a_category_twice_fails_without_mutation() {
    let mut game = game_with_dice("1,1,1,2,2", &["alice", "bob"]);
    game.book_dice_roll(BookingType::FullHouse).unwrap();
    assert_eq!(game.players[0].score, 25);
    assert!(game.players[0].has_used_booking_type(&BookingType::FullHouse));
    // same player is still due to book (phase toggled Roll -> Book)
    assert_eq!(game.state, GameState::Book);
    let before_score = game.players[0].score;
    let before_used = game.players[0].used_booking_types;
    let err = game.book_dice_roll(BookingType::FullHouse).unwrap_err();
    assert_eq!(err, KniffelError::CategoryAlreadyUsed);
    assert_eq!(game.players[0].score, before_score);
    assert_eq!(game.players[0].used_booking_types, before_used);
}

#[test]
fn booking_scores_the_current_hand() {
    let mut game = game_with_dice("3,3,3,5,6", &["alice"]);
    game.book_dice_roll(BookingType::ThreeOfAKind).unwrap();
    assert_eq!(game.players[0].score, 20);

    let mut game = game_with_dice("1,2,3,4,5", &["alice"]);
    game.book_dice_roll(BookingType::LargeStraight).unwrap();
    assert_eq!(game.players[0].score, 40);

    let mut game = game_with_dice("6,6,6,6,6", &["alice"]);
    game.book_dice_roll(BookingType::Kniffel).unwrap();
    assert_eq!(game.players[0].score, 50);
}

#[test]
fn booking_from_book_phase_passes_the_turn() {
    let mut game = KniffelGame::new(players(&["alice", "bob"])).unwrap();
    game.re_roll_dice(&[]).unwrap();
    game.re_roll_dice(&[]).unwrap();
    assert_eq!(game.state, GameState::Book);
    game.book_dice_roll(BookingType::Chance).unwrap();
    assert_eq!(game.players[1].name, "bob");
    assert_eq!(game.current_player, 1);
    assert_eq!(game.state, GameState::Roll);
    assert_eq!(game.roll_round, 1);
}

#[test]
fn scores_never_decrease_and_used_sets_never_shrink() {
    let mut game = KniffelGame::new(players(&["alice", "bob"])).unwrap();
    let mut last_scores = [0i32; 2];
    for round in 0..6 {
        let cat = ALL_CATEGORIES[round];
        for _ in 0..2 {
            let used_before = game.players[game.current_player].used_booking_types;
            game.re_roll_dice(&[]).unwrap();
            game.re_roll_dice(&[]).unwrap();
            game.book_dice_roll(cat).unwrap();
            for p in 0..2 {
                assert!(game.players[p].score >= last_scores[p]);
                last_scores[p] = game.players[p].score;
                assert!(game.players[p].used_count() <= 13);
            }
            for (k, was_used) in used_before.iter().enumerate() {
                if *was_used {
                    // a used mark never disappears
                    let owner = if game.current_player == 0 { 1 } else { 0 };
                    assert!(game.players[owner].used_booking_types[k]);
                }
            }
        }
    }
}

#[test]
fn game_ends_when_rotation_reaches_a_finished_player() {
    let mut game = KniffelGame::new(players(&["solo"])).unwrap();
    for cat in ALL_CATEGORIES.iter() {
        assert_eq!(game.state, GameState::Roll);
        game.re_roll_dice(&[]).unwrap();
        game.re_roll_dice(&[]).unwrap();
        assert_eq!(game.state, GameState::Book);
        game.book_dice_roll(*cat).unwrap();
    }
    assert_eq!(game.players[0].used_count(), 13);
    assert_eq!(game.state, GameState::Ended);
    assert_eq!(
        game.re_roll_dice(&[]).unwrap_err(),
        KniffelError::InvalidPhase
    );
    assert_eq!(
        game.book_dice_roll(BookingType::Chance).unwrap_err(),
        KniffelError::InvalidPhase
    );
}

#[test]
fn two_player_game_ends_after_both_finish() {
    let mut game = KniffelGame::new(players(&["alice", "bob"])).unwrap();
    for cat in ALL_CATEGORIES.iter() {
        for _ in 0..2 {
            game.re_roll_dice(&[]).unwrap();
            game.re_roll_dice(&[]).unwrap();
            game.book_dice_roll(*cat).unwrap();
        }
    }
    assert_eq!(game.state, GameState::Ended);
    assert_eq!(game.players[0].used_count(), 13);
    assert_eq!(game.players[1].used_count(), 13);
}

#[test]
fn keep_matching_retains_requested_faces_in_request_order() {
    let mut game = game_with_dice("2,2,3,4,5", &["alice"]);
    game.remove_dice(&[2, 2]);
    assert_eq!(game.dice_rolls, [2, 2, 0, 0, 0]);

    let mut game = game_with_dice("2,2,3,4,5", &["alice"]);
    game.remove_dice(&[2, 2, 2]);
    // only two 2's exist: the third request is dropped, its slot re-rolled
    assert_eq!(game.dice_rolls, [2, 2, 0, 0, 0]);

    let mut game = game_with_dice("2,2,3,4,5", &["alice"]);
    game.remove_dice(&[5, 3]);
    assert_eq!(game.dice_rolls, [5, 3, 0, 0, 0]);
}

#[test]
fn reroll_keeps_requested_faces_and_sorts_ascending() {
    let mut game = game_with_dice("2,2,3,4,5", &["alice"]);
    game.re_roll_dice(&[2, 2]).unwrap();
    let twos = game.dice_rolls.iter().filter(|d| **d == 2).count();
    assert!(twos >= 2);
    for w in game.dice_rolls.windows(2) {
        assert!(w[0] <= w[1]);
    }
    for d in game.dice_rolls.iter() {
        assert!((1..=6).contains(d));
    }
    assert_eq!(game.roll_round, 2);
}

#[test]
fn reroll_rejects_overdrawn_keep_requests() {
    let mut game = game_with_dice("2,2,3,4,5", &["alice"]);
    let before = game.dice_rolls;
    assert_eq!(
        game.re_roll_dice(&[6]).unwrap_err(),
        KniffelError::InvalidDiceSelection
    );
    assert_eq!(
        game.re_roll_dice(&[3, 3]).unwrap_err(),
        KniffelError::InvalidDiceSelection
    );
    assert_eq!(game.dice_rolls, before);
    assert_eq!(game.roll_round, 1);
}

#[test]
fn player_tracks_score_and_used_categories() {
    let mut p = KniffelPlayer::new(&"carol".to_string());
    assert_eq!(p.score, 0);
    assert_eq!(p.used_count(), 0);
    assert!(!p.has_used_booking_type(&BookingType::Ones));
    p.add_score(30);
    p.use_booking_type(BookingType::Ones);
    assert_eq!(p.score, 30);
    assert_eq!(p.used_count(), 1);
    assert!(p.has_used_booking_type(&BookingType::Ones));
    // marking twice changes nothing
    p.use_booking_type(BookingType::Ones);
    assert_eq!(p.used_count(), 1);
    let unused = p.unused_booking_types();
    assert_eq!(unused.len(), 12);
    assert!(!unused.contains(&BookingType::Ones));
    assert!(unused.contains(&BookingType::Chance));
}

#[test]
fn find_next_player_wraps_around() {
    let game = KniffelGame::new(players(&["a", "b", "c"])).unwrap();
    assert_eq!(game.find_next_player(), 1);
    let mut game = game;
    game.current_player = 2;
    assert_eq!(game.find_next_player(), 0);
}

#[test]
fn get_to_add_score_dispatches_every_category() {
    let game = game_with_dice("1,1,1,2,2", &["alice"]);
    assert_eq!(game.get_to_add_score(BookingType::Ones), 3);
    assert_eq!(game.get_to_add_score(BookingType::Twos), 4);
    assert_eq!(game.get_to_add_score(BookingType::Threes), 0);
    assert_eq!(game.get_to_add_score(BookingType::ThreeOfAKind), 7);
    assert_eq!(game.get_to_add_score(BookingType::FourOfAKind), 0);
    assert_eq!(game.get_to_add_score(BookingType::FullHouse), 25);
    assert_eq!(game.get_to_add_score(BookingType::SmallStraight), 0);
    assert_eq!(game.get_to_add_score(BookingType::LargeStraight), 0);
    assert_eq!(game.get_to_add_score(BookingType::Kniffel), 0);
    assert_eq!(game.get_to_add_score(BookingType::Chance), 7);
}
