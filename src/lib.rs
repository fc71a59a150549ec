//! Flashcard decks and practice runs: the text formats that store them, and
//! the state machine that sorts a deck's card ids into study categories.
use vstd::prelude::*;

pub mod deck_io;
pub mod laws;
pub mod lines;
pub mod prelude;
pub mod run_actions;
pub mod run_io;
pub mod session;
pub mod text;

use crate::run_actions::RunCategory;
use vstd::std_specs::iter::IteratorSpec;

verus! {

/// One flashcard, identified by its id.
pub struct Card {
    pub card_id: usize,
    pub front: String,
    pub back: String,
}

/// A collection of cards keyed by id.
pub struct Deck {
    pub cards: std::collections::HashMap<usize, Card>,
}

impl View for Deck {
    type V = Map<usize, (Seq<char>, Seq<char>)>;

    /// The deck as a map from id to (front, back).
    open spec fn view(&self) -> Map<usize, (Seq<char>, Seq<char>)> {
        Map::new(
            |k: usize| self.cards@.contains_key(k),
            |k: usize| (self.cards@[k].front@, self.cards@[k].back@),
        )
    }
}

impl Deck {
    /// Every card is stored under its own id.
    pub open spec fn wf(&self) -> bool {
        forall|k: usize| #[trigger] self.cards@.contains_key(k) ==> self.cards@[k].card_id == k
    }
}

/// The abstract state of a practice run.
pub struct RunView {
    pub deck_path: Seq<char>,
    pub last_save: Seq<char>,
    pub remaining: Seq<usize>,
    pub memorized: Seq<usize>,
    pub working: Seq<usize>,
    pub incorrect: Seq<usize>,
}

impl RunView {
    /// The ids of one category.
    pub open spec fn cat(self, c: RunCategory) -> Seq<usize> {
        match c {
            RunCategory::Remaining => self.remaining,
            RunCategory::Memorized => self.memorized,
            RunCategory::Working => self.working,
            RunCategory::Incorrect => self.incorrect,
        }
    }

    /// The same run with category `c` replaced by `s`.
    pub open spec fn with_cat(self, c: RunCategory, s: Seq<usize>) -> RunView {
        match c {
            RunCategory::Remaining => RunView { remaining: s, ..self },
            RunCategory::Memorized => RunView { memorized: s, ..self },
            RunCategory::Working => RunView { working: s, ..self },
            RunCategory::Incorrect => RunView { incorrect: s, ..self },
        }
    }

    /// All tracked ids, category after category (remaining, incorrect,
    /// memorized, working).
    pub open spec fn all_ids(self) -> Seq<usize> {
        self.remaining + self.incorrect + self.memorized + self.working
    }

    /// No id is tracked twice, within a category or across two.
    pub open spec fn partitioned(self) -> bool {
        self.all_ids().no_duplicates()
    }

    /// The set of tracked ids.
    pub open spec fn id_set(self) -> Set<usize> {
        self.all_ids().to_set()
    }
}

/// A study session over a deck: the deck's card ids split into four
/// categories. The last id of `remaining` is the current card.
pub struct PracticeRun {
    pub deck_path: String,
    pub last_save: String,
    pub remaining: Vec<usize>,
    pub memorized: Vec<usize>,
    pub working: Vec<usize>,
    pub incorrect: Vec<usize>,
}

impl View for PracticeRun {
    type V = RunView;

    open spec fn view(&self) -> RunView {
        RunView {
            deck_path: self.deck_path@,
            last_save: self.last_save@,
            remaining: self.remaining@,
            memorized: self.memorized@,
            working: self.working@,
            incorrect: self.incorrect@,
        }
    }
}

impl PracticeRun {
    /// An empty run with empty paths.
    pub fn new() -> (r: PracticeRun)
        ensures
            r@.deck_path.len() == 0,
            r@.last_save.len() == 0,
            r@.remaining.len() == 0,
            r@.memorized.len() == 0,
            r@.working.len() == 0,
            r@.incorrect.len() == 0,
    {
        PracticeRun {
            deck_path: String::new(),
            last_save: String::new(),
            remaining: Vec::new(),
            memorized: Vec::new(),
            working: Vec::new(),
            incorrect: Vec::new(),
        }
    }

    /// A fresh run over `deck`: every card id in `remaining`, shuffled, and
    /// the other categories empty.
    pub fn new_from_deck(deck: &Deck) -> (r: PracticeRun)
        ensures
            r@.deck_path.len() == 0,
            r@.last_save.len() == 0,
            r@.remaining.no_duplicates(),
            r@.remaining.to_set() == deck@.dom(),
            r@.memorized.len() == 0,
            r@.working.len() == 0,
            r@.incorrect.len() == 0,
    {
        broadcast use vstd::std_specs::hash::group_hash_axioms;

        let mut run = Self::new();
        for id in it: deck.cards.keys()
            invariant
                run@.remaining == it.seq().subrange(0, it.index()).unref(),
                run@.deck_path.len() == 0,
                run@.last_save.len() == 0,
                run@.memorized.len() == 0,
                run@.working.len() == 0,
                run@.incorrect.len() == 0,
        {
            run.remaining.push(*id);
        }
        let ghost before = run@;
        proof {
            let keys = vstd::std_specs::hash::spec_keys_iter(&deck.cards).remaining();
            assert(before.remaining =~= keys.unref());
            assert(before.all_ids() =~= before.remaining);
            assert(deck@.dom() =~= deck.cards@.dom());
        }
        run.shuffle(RunCategory::Remaining);
        proof {
            assert(run@.all_ids() =~= run@.remaining);
        }
        run
    }
}

} // verus!
