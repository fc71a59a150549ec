use ize_core::deck_io::load_deck;
use ize_core::run_actions::RunCategory;
use ize_core::run_io::load_practice_run_file;
use ize_core::session::{load_run_state, new_run_state, setup_run, setup_run_all, CardContentState};
use ize_core::{Deck, PracticeRun};

fn deck() -> Deck {
    load_deck("\n1\nQ1\nA1\n\n2\nQ2\nA2\n").unwrap()
}

#[test]
fn new_run_state_starts_on_a_front() {
    let state = new_run_state(deck(), "decks/d.txt".to_string());
    assert_eq!(state.count, 0);
    assert_eq!(state.card_content_state, CardContentState::Front);
    assert_eq!(state.run_data.run.deck_path, "decks/d.txt");
    let mut ids = state.run_data.run.remaining.clone();
    ids.sort();
    assert_eq!(ids, vec![1, 2]);
    assert!(!state.run_data.is_done());
}

#[test]
fn current_card_is_the_last_of_remaining() {
    let run = load_practice_run_file("d\nremaining\n1\n2\n", String::new()).unwrap();
    let state = load_run_state(run, deck()).ok().unwrap();
    assert_eq!(state.run_data.current_card_front(), Some("Q2".to_string()));
    assert_eq!(state.run_data.current_card_back(), Some("A2".to_string()));
}

#[test]
fn finished_run_has_no_current_card() {
    let run = load_practice_run_file("d\nmemorized\n1\n2\n", String::new()).unwrap();
    let state = load_run_state(run, deck()).ok().unwrap();
    assert!(state.run_data.is_done());
    assert_eq!(state.run_data.current_card_front(), None);
    assert_eq!(state.run_data.current_card_back(), None);
}

#[test]
fn load_run_state_rejects_duplicates() {
    let run = load_practice_run_file("d\nremaining\n1\nworking\n1\n", String::new()).unwrap();
    assert!(load_run_state(run, deck()).is_err());
}

#[test]
fn setup_run_moves_one_category_back() {
    let mut run = PracticeRun::new();
    run.incorrect = vec![1, 2];
    run.working = vec![3];
    setup_run(RunCategory::Incorrect, &mut run);
    let mut ids = run.remaining.clone();
    ids.sort();
    assert_eq!(ids, vec![1, 2]);
    assert!(run.incorrect.is_empty());
    assert_eq!(run.working, vec![3]);
}

#[test]
fn setup_run_all_moves_everything_back() {
    let mut run = PracticeRun::new();
    run.incorrect = vec![1];
    run.working = vec![2];
    run.memorized = vec![3];
    setup_run_all(&mut run);
    let mut ids = run.remaining.clone();
    ids.sort();
    assert_eq!(ids, vec![1, 2, 3]);
    assert!(run.incorrect.is_empty() && run.working.is_empty() && run.memorized.is_empty());
}
