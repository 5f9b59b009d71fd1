use kniffel::game_logic::BookingType;
use kniffel::game_logic::GameState;
use kniffel::game_logic::KniffelGame;
use kniffel::game_logic::KniffelPlayer;
use kniffel::records::encode_dice;
use kniffel::records::parse_dice;
use kniffel::records::GameRecord;
use kniffel::records::PlayerData;
use kniffel::records::PlayerRecord;

const CATEGORY_TOKENS: [(BookingType, &str); 13] = [
    (BookingType::Ones, "ONES"),
    (BookingType::Twos, "TWOS"),
    (BookingType::Threes, "THREES"),
    (BookingType::Fours, "FOURS"),
    (BookingType::Fives, "FIVES"),
    (BookingType::Sixes, "SIXES"),
    (BookingType::ThreeOfAKind, "THREE_OF_A_KIND"),
    (BookingType::FourOfAKind, "FOUR_OF_A_KIND"),
    (BookingType::FullHouse, "FULL_HOUSE"),
    (BookingType::SmallStraight, "SMALL_STRAIGHT"),
    (BookingType::LargeStraight, "LARGE_STRAIGHT"),
    (BookingType::Kniffel, "KNIFFEL"),
    (BookingType::Chance, "CHANCE"),
];

#[test]
fn category_tokens_round_trip() {
    for (bt, token) in CATEGORY_TOKENS.iter() {
        assert_eq!(bt.as_token(), *token);
        assert_eq!(BookingType::from_token(token), Some(*bt));
    }
    assert_eq!(BookingType::from_token("ONE"), None);
    assert_eq!(BookingType::from_token(""), None);
    assert_eq!(BookingType::from_token("ones"), None);
}

#[test]
fn state_tokens_round_trip() {
    for st in [GameState::Roll, GameState::Book, GameState::Ended] {
        let token = st.as_token();
        assert_eq!(GameState::from_token(token.as_str()), Some(st));
    }
    assert_eq!(GameState::as_token(&GameState::Roll), "Roll");
    assert_eq!(GameState::from_token("roll"), None);
    assert_eq!(GameState::from_token(""), None);
}

#[test]
fn dice_strings_round_trip() {
    assert_eq!(encode_dice(&[1, 2, 3, 4, 5]), "1,2,3,4,5");
    assert_eq!(encode_dice(&[6, 6, 6, 6, 6]), "6,6,6,6,6");
    assert_eq!(parse_dice("1,2,3,4,5"), Some([1, 2, 3, 4, 5]));
    assert_eq!(parse_dice(&encode_dice(&[2, 2, 3, 4, 6])), Some([2, 2, 3, 4, 6]));
    assert_eq!(parse_dice(""), None);
    assert_eq!(parse_dice("1,2,3,4"), None);
    assert_eq!(parse_dice("1,2,3,4,7"), None);
    assert_eq!(parse_dice("1;2;3;4;5"), None);
    assert_eq!(parse_dice("1,2,3,4,5,"), None);
}

#[test]
fn player_record_round_trips_the_used_categories() {
    let mut p = KniffelPlayer::new(&"dora".to_string());
    p.add_score(65);
    p.use_booking_type(BookingType::FullHouse);
    p.use_booking_type(BookingType::Ones);
    p.use_booking_type(BookingType::Chance);
    let rec = p.to_record();
    assert_eq!(rec.name, "dora");
    assert_eq!(rec.score, 65);
    assert_eq!(rec.used_booking_types, "ONES,FULL_HOUSE,CHANCE");
    let q = KniffelPlayer::from_record(&rec);
    assert_eq!(q.name, p.name);
    assert_eq!(q.score, p.score);
    assert_eq!(q.used_booking_types, p.used_booking_types);
}

#[test]
fn empty_used_list_round_trips() {
    let p = KniffelPlayer::new(&"erik".to_string());
    let rec = p.to_record();
    assert_eq!(rec.used_booking_types, "");
    let q = KniffelPlayer::from_record(&rec);
    assert_eq!(q.used_booking_types, [false; 13]);
}

#[test]
fn unknown_tags_are_dropped_when_loading_a_player() {
    let rec = PlayerRecord {
        name: "fred".to_string(),
        score: 0,
        used_booking_types: "ONES,MYSTERY,CHANCE".to_string(),
    };
    let p = KniffelPlayer::from_record(&rec);
    assert!(p.has_used_booking_type(&BookingType::Ones));
    assert!(p.has_used_booking_type(&BookingType::Chance));
    assert_eq!(p.used_count(), 2);
}

#[test]
fn game_round_trips_through_its_stored_form() {
    let mut game = KniffelGame::new(vec![
        KniffelPlayer::new(&"alice".to_string()),
        KniffelPlayer::new(&"bob".to_string()),
    ])
    .unwrap();
    game.re_roll_dice(&[]).unwrap();
    game.re_roll_dice(&[]).unwrap();
    game.book_dice_roll(BookingType::Chance).unwrap();

    let game_record = game.to_record();
    let player_records: Vec<PlayerRecord> =
        game.players.iter().map(|p| p.to_record()).collect();
    let loaded = KniffelGame::from_db(game_record, &player_records).expect("should load");

    assert_eq!(loaded.game_id, game.game_id);
    assert_eq!(loaded.roll_round, game.roll_round);
    assert_eq!(loaded.state, game.state);
    assert_eq!(loaded.dice_rolls, game.dice_rolls);
    assert_eq!(loaded.current_player, game.current_player);
    assert_eq!(loaded.players.len(), game.players.len());
    for (a, b) in loaded.players.iter().zip(game.players.iter()) {
        assert_eq!(a.name, b.name);
        assert_eq!(a.score, b.score);
        assert_eq!(a.used_booking_types, b.used_booking_types);
    }
}

fn sample_records() -> (GameRecord, Vec<PlayerRecord>) {
    let game = GameRecord {
        game_id: "id1".to_string(),
        roll_round: 2,
        stage: "Roll".to_string(),
        dice_rolls: "1,2,3,4,5".to_string(),
        current_player: "alice".to_string(),
    };
    let players = vec![
        PlayerRecord {
            name: "alice".to_string(),
            score: 25,
            used_booking_types: "FULL_HOUSE".to_string(),
        },
        PlayerRecord {
            name: "bob".to_string(),
            score: 0,
            used_booking_types: String::new(),
        },
    ];
    (game, players)
}

#[test]
fn from_db_loads_a_valid_record() {
    let (game, players) = sample_records();
    let g = KniffelGame::from_db(game, &players).expect("should load");
    assert_eq!(g.state, GameState::Roll);
    assert_eq!(g.roll_round, 2);
    assert_eq!(g.dice_rolls, [1, 2, 3, 4, 5]);
    assert_eq!(g.current_player, 0);
    assert_eq!(g.players[0].score, 25);
    assert!(g.players[0].has_used_booking_type(&BookingType::FullHouse));
    assert_eq!(g.players[1].score, 0);
}

#[test]
fn from_db_rejects_malformed_records() {
    let (game, players) = sample_records();
    let mut bad = game.clone();
    bad.dice_rolls = "0,2,3,4,5".to_string();
    assert!(KniffelGame::from_db(bad, &players).is_none());

    let mut bad = game.clone();
    bad.dice_rolls = "nonsense".to_string();
    assert!(KniffelGame::from_db(bad, &players).is_none());

    let mut bad = game.clone();
    bad.stage = "Sleep".to_string();
    assert!(KniffelGame::from_db(bad, &players).is_none());

    let mut bad = game.clone();
    bad.roll_round = 0;
    assert!(KniffelGame::from_db(bad, &players).is_none());

    let mut bad = game.clone();
    bad.roll_round = 3;
    // a game waiting for a roll can only have taken one or two rolls
    assert!(KniffelGame::from_db(bad, &players).is_none());

    let mut bad = game.clone();
    bad.current_player = "mallory".to_string();
    assert!(KniffelGame::from_db(bad, &players).is_none());

    assert!(KniffelGame::from_db(game.clone(), &[]).is_none());

    let mut twins = players.clone();
    twins[1].name = "alice".to_string();
    assert!(KniffelGame::from_db(game.clone(), &twins).is_none());

    let mut rich = players.clone();
    // a score that the stored used categories cannot explain
    rich[1].score = 10;
    assert!(KniffelGame::from_db(game.clone(), &rich).is_none());

    let mut negative = players.clone();
    negative[0].score = -1;
    assert!(KniffelGame::from_db(game, &negative).is_none());
}

#[test]
fn player_data_bundles_name_and_score() {
    let d = PlayerData::new("alice".to_string(), 120);
    assert_eq!(d.name, "alice");
    assert_eq!(d.score, 120);
}
