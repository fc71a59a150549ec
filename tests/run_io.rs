use std::collections::HashSet;

use ize_core::deck_io::load_deck;
use ize_core::run_io::{
    check_duplicates, load_practice_run, load_practice_run_file, load_run_lines, remove_id,
    run_lines, save_practice_run,
};
use ize_core::{Deck, PracticeRun};

fn lines(text: &str) -> Vec<String> {
    text.lines().map(String::from).collect()
}

fn deck(ids: &[usize]) -> Deck {
    let text: String = ids.iter().map(|id| format!("{id}\nfront {id}\nback {id}\n\n")).collect();
    load_deck(&text).unwrap()
}

fn run_of(text: &str) -> PracticeRun {
    load_practice_run_file(text, "/runs/r.txt".to_string()).unwrap()
}

fn set(v: &[usize]) -> HashSet<usize> {
    v.iter().copied().collect()
}

#[test]
fn run_file_parses_sections() {
    let run = run_of("\n/decks/d.txt\n\nremaining\n3\n1\nworking\n2\nincorrect\nmemorized\n4\n");
    assert_eq!(run.deck_path, "/decks/d.txt");
    assert_eq!(run.last_save, "/runs/r.txt");
    assert_eq!(run.remaining, vec![3, 1]);
    assert_eq!(run.working, vec![2]);
    assert!(run.incorrect.is_empty());
    assert_eq!(run.memorized, vec![4]);
}

#[test]
fn headers_are_case_insensitive() {
    let run = run_of("d\nREMAINING\n1\nWorking\n2\nInCorrect\n3\nMemorized\n4\n");
    assert_eq!(run.remaining, vec![1]);
    assert_eq!(run.working, vec![2]);
    assert_eq!(run.incorrect, vec![3]);
    assert_eq!(run.memorized, vec![4]);
}

#[test]
fn a_header_may_come_back_and_replaces_its_list() {
    let run = run_of("d\nremaining\n1\n2\nremaining\n5\n");
    assert_eq!(run.remaining, vec![5]);
}

#[test]
fn id_list_ends_at_a_blank_line() {
    let run = run_of("d\n\nworking\n1\n\n\nincorrect\n2\n");
    assert_eq!(run.working, vec![1]);
    assert_eq!(run.incorrect, vec![2]);
}

#[test]
fn unknown_header_is_a_format_error() {
    let err = load_practice_run_file("d\nremaining\n1\nFinished\n2\n", String::new())
        .err()
        .unwrap();
    assert_eq!(err.error_message, "Unexpected heading finished");
}

#[test]
fn ids_after_a_blank_line_are_an_unknown_header() {
    let err = load_practice_run_file("d\nremaining\n1\n\n2\n", String::new()).err().unwrap();
    assert_eq!(err.error_message, "Unexpected heading 2");
}

#[test]
fn missing_deck_path_is_a_format_error() {
    let err = load_practice_run_file("\n \n", String::new()).err().unwrap();
    assert_eq!(err.error_message, "Expected deck file path.");
}

#[test]
fn cross_category_duplicate_fails_to_load() {
    let run = run_of("d\nremaining\n1\n2\nmemorized\n2\n");
    let err = load_practice_run(run, deck(&[1, 2])).err().unwrap();
    assert_eq!(err.error_message, "Run file invalid: id 2 found in multiple locations.");
}

#[test]
fn duplicate_within_a_category_fails_to_load() {
    let run = run_of("d\nworking\n8\n8\n");
    let err = check_duplicates(&run).err().unwrap();
    assert_eq!(err.error_message, "Run file invalid: id 8 found in multiple locations.");
}

#[test]
fn duplicates_are_reported_in_scan_order() {
    // remaining, incorrect, memorized, working: 5 is met twice before 9 is.
    let run = run_of("d\nworking\n9\nremaining\n9\n5\nincorrect\n5\n");
    let err = check_duplicates(&run).err().unwrap();
    assert_eq!(err.error_message, "Run file invalid: id 5 found in multiple locations.");
}

#[test]
fn check_duplicates_returns_the_tracked_ids() {
    let run = run_of("d\nremaining\n1\nworking\n2\nmemorized\n3\nincorrect\n4\n");
    assert_eq!(check_duplicates(&run).unwrap(), set(&[1, 2, 3, 4]));
}

#[test]
fn reconciliation_adds_new_cards_to_remaining() {
    let run = run_of("d\nremaining\n1\nworking\n2\n");
    let (run, deck) = load_practice_run(run, deck(&[1, 2, 3, 4])).unwrap();
    assert_eq!(deck.cards.len(), 4);
    assert_eq!(run.remaining[0], 1);
    assert_eq!(set(&run.remaining), set(&[1, 3, 4]));
    assert_eq!(run.remaining.len(), 3);
    assert_eq!(run.working, vec![2]);
}

#[test]
fn reconciliation_drops_deleted_cards() {
    let run = run_of("d\nremaining\n1\n9\nworking\n2\n8\nincorrect\n7\nmemorized\n3\n");
    let (run, _) = load_practice_run(run, deck(&[1, 2, 3])).unwrap();
    assert_eq!(run.remaining, vec![1]);
    assert_eq!(run.working, vec![2]);
    assert!(run.incorrect.is_empty());
    assert_eq!(run.memorized, vec![3]);
}

#[test]
fn reconciled_run_tracks_exactly_the_deck() {
    let run = run_of("d\nremaining\n5\n6\nmemorized\n7\n");
    let (run, _) = load_practice_run(run, deck(&[6, 7, 8])).unwrap();
    let mut all: Vec<usize> = Vec::new();
    all.extend(&run.remaining);
    all.extend(&run.working);
    all.extend(&run.incorrect);
    all.extend(&run.memorized);
    assert_eq!(all.len(), 3);
    assert_eq!(set(&all), set(&[6, 7, 8]));
    assert_eq!(run.deck_path, "d");
}

#[test]
fn remove_id_removes_the_first_occurrence() {
    let mut run = run_of("d\nremaining\n1\n2\nincorrect\n3\nworking\n4\n");
    remove_id(&mut run, 3);
    assert!(run.incorrect.is_empty());
    remove_id(&mut run, 1);
    assert_eq!(run.remaining, vec![2]);
    remove_id(&mut run, 99);
    assert_eq!(run.remaining, vec![2]);
    assert_eq!(run.working, vec![4]);
}

#[test]
fn saved_run_sorts_each_category_on_its_own() {
    let run = run_of("d\nremaining\n10\n2\nworking\n7\n5\nincorrect\n9\n3\nmemorized\n\n");
    let expected: Vec<&str> = vec![
        "", "d", "", "remaining", "2", "10", "working", "5", "7", "incorrect", "3", "9",
        "memorized", "",
    ];
    assert_eq!(run_lines(&run), expected);
    assert_eq!(save_practice_run(&run), "\nd\n\nremaining\n2\n10\nworking\n5\n7\nincorrect\n3\n9\nmemorized\n\n");
}

#[test]
fn saved_run_loads_back() {
    let run = run_of("d\nremaining\n3\n1\nworking\n2\nmemorized\n4\n");
    let out = save_practice_run(&run);
    let again = load_practice_run_file(&out, "/runs/r.txt".to_string()).unwrap();
    let from_lines = load_run_lines(&lines(&out), "/runs/r.txt".to_string()).unwrap();
    assert_eq!(from_lines.remaining, again.remaining);
    assert_eq!(again.remaining, vec![1, 3]);
    assert_eq!(again.working, vec![2]);
    assert!(again.incorrect.is_empty());
    assert_eq!(again.memorized, vec![4]);
    assert_eq!(again.deck_path, "d");
}
