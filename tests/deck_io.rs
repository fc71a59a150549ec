use ize_core::deck_io::{deck_lines, load_deck, load_deck_lines, save_deck, LineCursor, ParsingError};
use ize_core::Deck;

fn lines(text: &str) -> Vec<String> {
    text.lines().map(String::from).collect()
}

fn entry(deck: &Deck, id: usize) -> (String, String) {
    let card = &deck.cards[&id];
    assert_eq!(card.card_id, id);
    (card.front.clone(), card.back.clone())
}

#[test]
fn example_deck_loads() {
    let deck = load_deck("\n1\nQ1\nA1\n\n2\nQ2\nA2\n").unwrap();
    assert_eq!(deck.cards.len(), 2);
    assert_eq!(entry(&deck, 1), ("Q1".to_string(), "A1".to_string()));
    assert_eq!(entry(&deck, 2), ("Q2".to_string(), "A2".to_string()));
}

#[test]
fn empty_and_blank_files_give_empty_decks() {
    assert_eq!(load_deck("").unwrap().cards.len(), 0);
    assert_eq!(load_deck("\n  \n\t\n").unwrap().cards.len(), 0);
}

#[test]
fn records_need_no_separating_blank_line() {
    let deck = load_deck("7\nfront\nback\n8\nf\nb").unwrap();
    assert_eq!(entry(&deck, 7), ("front".to_string(), "back".to_string()));
    assert_eq!(entry(&deck, 8), ("f".to_string(), "b".to_string()));
}

#[test]
fn front_and_back_are_read_verbatim() {
    let deck = load_deck("3\n\n  spaced  \n").unwrap();
    assert_eq!(entry(&deck, 3), ("".to_string(), "  spaced  ".to_string()));
}

#[test]
fn id_may_carry_a_plus_sign() {
    let deck = load_deck("+12\nq\na\n").unwrap();
    assert_eq!(entry(&deck, 12), ("q".to_string(), "a".to_string()));
}

#[test]
fn duplicate_id_keeps_the_later_record() {
    let deck = load_deck("\n5\nold front\nold back\n\n5\nnew front\nnew back\n").unwrap();
    assert_eq!(deck.cards.len(), 1);
    assert_eq!(entry(&deck, 5), ("new front".to_string(), "new back".to_string()));
}

#[test]
fn non_numeric_id_is_a_format_error() {
    let err: ParsingError = load_deck("\nabc\nq\na\n").err().unwrap();
    assert_eq!(err.error_message, "Card id abc must be a number.");
}

#[test]
fn negative_and_overflowing_ids_are_rejected() {
    let err = load_deck("-1\nq\na\n").err().unwrap();
    assert_eq!(err.error_message, "Card id -1 must be a number.");
    let err = load_deck("18446744073709551616\nq\na\n").err().unwrap();
    assert_eq!(err.error_message, "Card id 18446744073709551616 must be a number.");
}

#[test]
fn truncated_record_is_a_format_error() {
    let err = load_deck("1\nQ1\nA1\n\n2\nQ2\n").err().unwrap();
    assert_eq!(err.error_message, "Expected card content");
    let err = load_deck("1\n").err().unwrap();
    assert_eq!(err.error_message, "Expected card content");
}

#[test]
fn saved_deck_has_the_documented_layout() {
    let deck = load_deck("\n42\nfront\nback\n").unwrap();
    assert_eq!(deck_lines(&deck), vec!["", "42", "front", "back", ""]);
    assert_eq!(save_deck(&deck), "\n42\nfront\nback\n\n");
}

#[test]
fn crlf_line_endings_are_accepted() {
    let deck = load_deck("\r\n4\r\nq\r\na\r\n").unwrap();
    assert_eq!(entry(&deck, 4), ("q".to_string(), "a".to_string()));
}

#[test]
fn deck_lines_load_like_deck_text() {
    let deck = load_deck_lines(&lines("\n9\nnine\nneun")).unwrap();
    assert_eq!(entry(&deck, 9), ("nine".to_string(), "neun".to_string()));
}

#[test]
fn deck_round_trip() {
    let text = "\n1\nQ1\nA1\n\n2\nQ2\nA2\n\n30\nwhat\nwhy\n";
    let deck = load_deck(text).unwrap();
    assert_eq!(deck_lines(&deck).len(), 1 + 4 * 3);
    let file = save_deck(&deck);
    let again = load_deck(&file).unwrap();
    assert_eq!(again.cards.len(), 3);
    for id in [1usize, 2, 30] {
        assert_eq!(entry(&again, id), entry(&deck, id));
    }
}

#[test]
fn empty_deck_round_trip() {
    let deck = load_deck("").unwrap();
    let saved = save_deck(&deck);
    assert_eq!(saved, "\n");
    assert_eq!(load_deck(&saved).unwrap().cards.len(), 0);
}

#[test]
fn cursor_peeks_and_advances() {
    let ls = lines("a\nb");
    let mut cursor = LineCursor::new(&ls);
    assert_eq!(cursor.peek().map(|s| s.as_str()), Some("a"));
    assert_eq!(cursor.advance().map(|s| s.as_str()), Some("a"));
    assert_eq!(cursor.peek().map(|s| s.as_str()), Some("b"));
    assert_eq!(cursor.advance().map(|s| s.as_str()), Some("b"));
    assert_eq!(cursor.peek(), None);
    assert_eq!(cursor.advance(), None);
    assert_eq!(cursor.pos, 2);
}

#[test]
fn parsing_error_keeps_its_message() {
    let e = ParsingError::new("bad".to_string());
    assert_eq!(e.error_message, "bad");
    let b = ParsingError::box_new("worse".to_string());
    assert_eq!(b.error_message, "worse");
}
