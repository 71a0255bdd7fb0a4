use featherkey::cursor::{move_left, move_right, next_boundary, prev_boundary, validate, word_left, word_right};
use featherkey::kernel::EditError;

#[test]
fn move_right_steps_over_ascii() {
    assert_eq!(move_right("abc", 0), Ok(1));
    assert_eq!(move_right("abc", 1), Ok(2));
}

#[test]
fn move_right_saturates_at_the_end() {
    assert_eq!(move_right("abc", 3), Ok(3));
}

#[test]
fn move_left_saturates_at_the_start() {
    assert_eq!(move_left("abc", 0), Ok(0));
}

#[test]
fn move_left_steps_back_one_grapheme() {
    assert_eq!(move_left("abc", 2), Ok(1));
}

#[test]
fn move_right_treats_a_precomposed_accent_as_one_step() {
    let text = "café";
    assert_eq!(move_right(text, 3), Ok(5));
    assert_eq!(move_left(text, 5), Ok(3));
}

#[test]
fn move_right_steps_over_a_base_letter_plus_combining_mark() {
    let text = "cafe\u{301}";
    assert_eq!(text.len(), 6);
    assert_eq!(move_right(text, 3), Ok(6));
    assert_eq!(move_left(text, 6), Ok(3));
}

#[test]
fn move_right_steps_over_a_multi_scalar_emoji_cluster() {
    let text = "👨‍👩‍👧!";
    let cluster_len = text.len() - 1;
    assert_eq!(move_right(text, 0), Ok(cluster_len));
    assert_eq!(move_left(text, cluster_len), Ok(0));
}

#[test]
fn word_right_lands_on_word_ends() {
    let text = "hello world";
    assert_eq!(word_right(text, 0), Ok(5));
    assert_eq!(word_right(text, 3), Ok(5));
    assert_eq!(word_right(text, 5), Ok(11));
}

#[test]
fn word_right_saturates_at_the_end() {
    assert_eq!(word_right("hello world", 11), Ok(11));
}

#[test]
fn word_left_lands_on_word_starts() {
    let text = "hello world";
    assert_eq!(word_left(text, 11), Ok(6));
    assert_eq!(word_left(text, 6), Ok(0));
    assert_eq!(word_left(text, 3), Ok(0));
}

#[test]
fn word_left_saturates_at_the_start() {
    assert_eq!(word_left("hello world", 0), Ok(0));
}

#[test]
fn word_movement_crosses_multibyte_words() {
    let text = "café złoty";
    let cafe_end = "café".len();
    let zloty_start = cafe_end + 1;
    assert_eq!(word_right(text, 0), Ok(cafe_end));
    assert_eq!(word_left(text, text.len()), Ok(zloty_start));
}

#[test]
fn every_operation_surfaces_out_of_range_indices_as_errors() {
    let text = "hi";
    assert_eq!(move_left(text, 3), Err(EditError::OutOfBounds));
    assert_eq!(move_right(text, 3), Err(EditError::OutOfBounds));
    assert_eq!(word_left(text, 3), Err(EditError::OutOfBounds));
    assert_eq!(word_right(text, 3), Err(EditError::OutOfBounds));
}

#[test]
fn every_operation_surfaces_mid_scalar_indices_as_errors() {
    let text = "café";
    assert_eq!(move_left(text, 4), Err(EditError::NotCharBoundary));
    assert_eq!(move_right(text, 4), Err(EditError::NotCharBoundary));
    assert_eq!(word_left(text, 4), Err(EditError::NotCharBoundary));
    assert_eq!(word_right(text, 4), Err(EditError::NotCharBoundary));
}

#[test]
fn movement_in_empty_text_stays_at_zero() {
    assert_eq!(move_left("", 0), Ok(0));
    assert_eq!(move_right("", 0), Ok(0));
    assert_eq!(word_left("", 0), Ok(0));
    assert_eq!(word_right("", 0), Ok(0));
    assert_eq!(move_right("", 1), Err(EditError::OutOfBounds));
}

#[test]
fn word_movement_skips_punctuation_between_words() {
    let text = "one, two!";
    assert_eq!(word_right(text, 3), Ok(8));
    assert_eq!(word_left(text, 5), Ok(0));
    assert_eq!(word_left(text, 9), Ok(5));
}

#[test]
fn validate_checks_bounds_before_boundaries() {
    assert_eq!(validate("é", 0), Ok(()));
    assert_eq!(validate("é", 1), Err(EditError::NotCharBoundary));
    assert_eq!(validate("é", 2), Ok(()));
    assert_eq!(validate("é", 3), Err(EditError::OutOfBounds));
}

#[test]
fn boundary_walks_follow_the_listed_offsets() {
    assert_eq!(prev_boundary(&[0, 2, 5, 9], 5), 2);
    assert_eq!(prev_boundary(&[0, 2, 5, 9], 0), 0);
    assert_eq!(prev_boundary(&[3, 1], 4), 1);
    assert_eq!(next_boundary(&[0, 2, 5, 9], 5, 12), 9);
    assert_eq!(next_boundary(&[0, 2, 5, 9], 9, 12), 12);
    assert_eq!(next_boundary(&[], 0, 7), 7);
}

#[test]
fn stepping_right_then_left_returns_to_each_cluster_start() {
    let text = "a\u{e9}e\u{301}\u{1f44d}\u{1f3fd}z";
    let starts = [0usize, 1, 3, 6, 14];
    for &s in &starts {
        let r = move_right(text, s).unwrap();
        assert_eq!(move_left(text, r), Ok(s));
    }
    assert_eq!(move_right(text, 3), Ok(6));
    assert_eq!(move_left(text, 14), Ok(6));
}

#[test]
fn word_steps_land_on_the_nearest_word_boundary() {
    let text = "one two, three";
    assert_eq!(word_right(text, 3), Ok(7));
    assert_eq!(word_left(text, 9), Ok(4));
    assert_eq!(word_left(text, 4), Ok(0));
}
