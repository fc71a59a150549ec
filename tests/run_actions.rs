use std::collections::HashSet;

use ize_core::deck_io::load_deck;
use ize_core::run_actions::{position_of, RunActionError, RunCategory};
use ize_core::PracticeRun;

fn run_with(remaining: &[usize], memorized: &[usize], working: &[usize], incorrect: &[usize]) -> PracticeRun {
    let mut run = PracticeRun::new();
    run.remaining = remaining.to_vec();
    run.memorized = memorized.to_vec();
    run.working = working.to_vec();
    run.incorrect = incorrect.to_vec();
    run
}

fn sorted(v: &[usize]) -> Vec<usize> {
    let mut v = v.to_vec();
    v.sort();
    v
}

#[test]
fn new_run_is_empty() {
    let run = PracticeRun::new();
    assert!(run.deck_path.is_empty());
    assert!(run.last_save.is_empty());
    assert!(run.remaining.is_empty());
    assert!(run.memorized.is_empty());
    assert!(run.working.is_empty());
    assert!(run.incorrect.is_empty());
}

#[test]
fn new_from_deck_puts_every_id_in_remaining() {
    let deck = load_deck("\n1\nQ1\nA1\n\n2\nQ2\nA2\n").unwrap();
    let run = PracticeRun::new_from_deck(&deck);
    assert_eq!(sorted(&run.remaining), vec![1, 2]);
    assert!(run.memorized.is_empty());
    assert!(run.working.is_empty());
    assert!(run.incorrect.is_empty());
}

#[test]
fn move_index_moves_to_the_end() {
    let mut run = run_with(&[1, 2, 3], &[], &[9], &[]);
    assert_eq!(run.move_index(2, RunCategory::Remaining, RunCategory::Working), Ok(()));
    assert_eq!(run.remaining, vec![1, 3]);
    assert_eq!(run.working, vec![9, 2]);
}

#[test]
fn move_index_within_one_category_moves_to_its_end() {
    let mut run = run_with(&[1, 2, 3], &[], &[], &[]);
    assert_eq!(run.move_index(1, RunCategory::Remaining, RunCategory::Remaining), Ok(()));
    assert_eq!(run.remaining, vec![2, 3, 1]);
}

#[test]
fn move_index_of_missing_id_fails_and_changes_nothing() {
    let mut run = run_with(&[1, 2], &[3], &[4], &[5]);
    let result = run.move_index(3, RunCategory::Remaining, RunCategory::Incorrect);
    assert_eq!(result, Err(RunActionError::IdNotFound(3, RunCategory::Remaining)));
    assert_eq!(run.remaining, vec![1, 2]);
    assert_eq!(run.memorized, vec![3]);
    assert_eq!(run.working, vec![4]);
    assert_eq!(run.incorrect, vec![5]);
}

#[test]
fn move_last_advances_the_current_card() {
    let mut run = run_with(&[1, 2, 3], &[], &[], &[]);
    assert!(run.move_last(RunCategory::Remaining, RunCategory::Memorized).is_ok());
    assert_eq!(run.remaining, vec![1, 2]);
    assert_eq!(run.memorized, vec![3]);
}

#[test]
fn move_last_from_empty_category_fails() {
    let mut run = run_with(&[], &[7], &[], &[]);
    assert!(run.move_last(RunCategory::Remaining, RunCategory::Memorized).is_err());
    assert!(run.remaining.is_empty());
    assert_eq!(run.memorized, vec![7]);
}

#[test]
fn move_category_appends_in_order() {
    let mut run = run_with(&[1], &[], &[], &[4, 5, 6]);
    run.move_category(RunCategory::Incorrect, RunCategory::Remaining);
    assert_eq!(run.remaining, vec![1, 4, 5, 6]);
    assert!(run.incorrect.is_empty());
}

#[test]
fn move_category_of_empty_or_same_category_changes_nothing() {
    let mut run = run_with(&[1, 2], &[], &[], &[]);
    run.move_category(RunCategory::Working, RunCategory::Remaining);
    assert_eq!(run.remaining, vec![1, 2]);
    run.move_category(RunCategory::Remaining, RunCategory::Remaining);
    assert_eq!(run.remaining, vec![1, 2]);
}

#[test]
fn skip_rotates_the_current_card_to_the_front() {
    let mut run = run_with(&[1, 2, 3], &[], &[], &[]);
    run.skip();
    assert_eq!(run.remaining, vec![3, 1, 2]);
}

#[test]
fn skip_on_one_card_changes_nothing() {
    let mut run = run_with(&[4], &[], &[], &[]);
    run.skip();
    assert_eq!(run.remaining, vec![4]);
}

#[test]
fn skip_on_empty_remaining_changes_nothing() {
    let mut run = run_with(&[], &[1], &[], &[]);
    run.skip();
    assert!(run.remaining.is_empty());
    assert_eq!(run.memorized, vec![1]);
}

#[test]
fn reset_collects_every_id_in_remaining() {
    let mut run = run_with(&[], &[1, 2], &[3], &[4, 5]);
    run.reset();
    assert_eq!(run.remaining.len(), 5);
    assert_eq!(sorted(&run.remaining), vec![1, 2, 3, 4, 5]);
    assert!(run.memorized.is_empty());
    assert!(run.working.is_empty());
    assert!(run.incorrect.is_empty());
}

#[test]
fn shuffle_keeps_the_ids() {
    let ids: Vec<usize> = (0..50).collect();
    let mut run = run_with(&ids, &[100], &[], &[]);
    run.shuffle(RunCategory::Remaining);
    assert_eq!(sorted(&run.remaining), ids);
    assert_eq!(run.memorized, vec![100]);
}

#[test]
fn shuffle_all_keeps_each_category() {
    let mut run = run_with(&[1, 2, 3], &[4, 5], &[6], &[7, 8, 9]);
    run.shuffle_all();
    assert_eq!(sorted(&run.remaining), vec![1, 2, 3]);
    assert_eq!(sorted(&run.memorized), vec![4, 5]);
    assert_eq!(run.working, vec![6]);
    assert_eq!(sorted(&run.incorrect), vec![7, 8, 9]);
}

#[test]
fn operations_keep_the_partition() {
    let mut run = run_with(&[1, 2, 3, 4], &[], &[5], &[]);
    run.move_last(RunCategory::Remaining, RunCategory::Incorrect).unwrap();
    run.move_index(1, RunCategory::Remaining, RunCategory::Memorized).unwrap();
    run.skip();
    run.move_category(RunCategory::Working, RunCategory::Incorrect);
    run.shuffle_all();
    let mut all: Vec<usize> = Vec::new();
    for v in [&run.remaining, &run.memorized, &run.working, &run.incorrect] {
        all.extend(v.iter());
    }
    assert_eq!(all.len(), 5);
    assert_eq!(all.iter().copied().collect::<HashSet<usize>>(), (1..=5).collect());
}

#[test]
fn category_array_gives_the_named_category() {
    let mut run = run_with(&[1], &[2], &[3], &[4]);
    run.category_array(RunCategory::Working).push(30);
    assert_eq!(run.working, vec![3, 30]);
    assert_eq!(*run.category_array(RunCategory::Incorrect), vec![4]);
}

#[test]
fn position_of_finds_the_first_occurrence() {
    assert_eq!(position_of(&vec![5, 6, 5], 5), Some(0));
    assert_eq!(position_of(&vec![5, 6, 5], 6), Some(1));
    assert_eq!(position_of(&vec![5, 6, 5], 7), None);
}
