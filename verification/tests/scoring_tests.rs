use kniffel::scoring::get_score_1_to_6;
use kniffel::scoring::get_score_chance;
use kniffel::scoring::get_score_for_x_of_a_kind;
use kniffel::scoring::get_score_full_house;
use kniffel::scoring::get_score_kniffel;
use kniffel::scoring::get_score_large_straight;
use kniffel::scoring::get_score_small_straight;

#[test]
fn chance_is_sum_of_all_dice() {
    assert_eq!(get_score_chance(&[1, 2, 3, 4, 6]), 16);
    assert_eq!(get_score_chance(&[1, 1, 1, 1, 1]), 5);
    assert_eq!(get_score_chance(&[6, 6, 6, 6, 6]), 30);
    assert_eq!(get_score_chance(&[2, 3, 4, 5, 6]), 20);
}

#[test]
fn kniffel_scores_fifty_exactly_for_five_equal_dice() {
    assert_eq!(get_score_kniffel(&[1, 1, 1, 1, 1]), 50);
    assert_eq!(get_score_kniffel(&[4, 4, 4, 4, 4]), 50);
    assert_eq!(get_score_kniffel(&[4, 4, 4, 4, 5]), 0);
    assert_eq!(get_score_kniffel(&[1, 2, 3, 4, 5]), 0);
}

#[test]
fn full_house_needs_exactly_three_and_two() {
    assert_eq!(get_score_full_house(&[1, 1, 1, 2, 2]), 25);
    assert_eq!(get_score_full_house(&[1, 1, 1, 1, 2]), 0);
    assert_eq!(get_score_full_house(&[1, 1, 1, 1, 1]), 0);
    assert_eq!(get_score_full_house(&[2, 2, 5, 5, 5]), 25);
}

#[test]
fn straights_score_thirty_and_forty() {
    assert_eq!(get_score_small_straight(&[1, 2, 3, 4, 6]), 30);
    assert_eq!(get_score_small_straight(&[2, 3, 4, 5, 5]), 30);
    assert_eq!(get_score_small_straight(&[3, 4, 5, 6, 6]), 30);
    assert_eq!(get_score_small_straight(&[1, 2, 3, 5, 6]), 0);
    assert_eq!(get_score_large_straight(&[1, 2, 3, 4, 5]), 40);
    assert_eq!(get_score_large_straight(&[2, 3, 4, 5, 6]), 40);
    assert_eq!(get_score_large_straight(&[1, 1, 3, 4, 5]), 0);
    assert_eq!(get_score_large_straight(&[1, 2, 3, 4, 6]), 0);
}

#[test]
fn x_of_a_kind_scores_the_whole_hand_or_nothing() {
    assert_eq!(get_score_for_x_of_a_kind(&[3, 3, 3, 5, 6], 3), 20);
    assert_eq!(get_score_for_x_of_a_kind(&[3, 3, 5, 5, 6], 3), 0);
    assert_eq!(get_score_for_x_of_a_kind(&[2, 2, 2, 2, 6], 4), 14);
    assert_eq!(get_score_for_x_of_a_kind(&[2, 2, 2, 6, 6], 4), 0);
    // a five-of-a-kind hand also satisfies both thresholds
    assert_eq!(get_score_for_x_of_a_kind(&[4, 4, 4, 4, 4], 3), 20);
    assert_eq!(get_score_for_x_of_a_kind(&[4, 4, 4, 4, 4], 4), 20);
}

#[test]
fn numeric_categories_multiply_face_by_count() {
    assert_eq!(get_score_1_to_6(&[1, 1, 3, 4, 5], 1), 2);
    assert_eq!(get_score_1_to_6(&[2, 2, 2, 2, 2], 2), 10);
    assert_eq!(get_score_1_to_6(&[1, 2, 3, 4, 5], 6), 0);
    assert_eq!(get_score_1_to_6(&[6, 6, 6, 1, 2], 6), 18);
}
