//! A study session: a run together with the deck it studies, and which side
//! of the current card is shown.
use vstd::prelude::*;

use crate::deck_io::ParsingError;
use crate::run_actions::{same_ids, RunCategory};
use crate::run_io::{load_practice_run, reconciled, reports_first_repeat};
use crate::{Card, Deck, PracticeRun, RunView};
use vstd::multiset::Multiset;

verus! {

broadcast use vstd::std_specs::hash::group_hash_axioms;

/// The side of the current card that is shown.
#[derive(Debug, Clone, Copy, PartialEq, Eq, Structural)]
pub enum CardContentState {
    Front,
    Back,
}

/// A run and the deck whose cards it tracks.
pub struct RunData {
    pub run: PracticeRun,
    pub deck: Deck,
}

impl RunData {
    /// Every tracked id has a card in the deck.
    pub open spec fn wf(&self) -> bool {
        &&& self.deck.wf()
        &&& forall|id: usize| #[trigger]
            self.run@.id_set().contains(id) ==> self.deck@.contains_key(id)
    }

    /// The id of the current card, if any card remains.
    pub open spec fn current_id(&self) -> Option<usize> {
        if self.run@.remaining.len() == 0 {
            None
        } else {
            Some(self.run@.remaining.last())
        }
    }

    fn current_card(&self) -> (r: Option<&Card>)
        requires
            self.wf(),
        ensures
            match r {
                Some(c) => self.current_id() is Some && self.deck.cards@.contains_key(
                    self.current_id()->0,
                ) && *c == self.deck.cards@[self.current_id()->0],
                None => self.current_id() is None,
            },
    {
        let n = self.run.remaining.len();
        if n == 0 {
            return None;
        }
        let id = self.run.remaining[n - 1];
        proof {
            let all = self.run@.all_ids();
            assert(all[n - 1] == id);
            assert(self.run@.id_set().contains(id));
            assert(self.deck@.contains_key(id));
        }
        self.deck.cards.get(&id)
    }

    /// The front of the current card; `None` once no card remains.
    pub fn current_card_front(&self) -> (r: Option<String>)
        requires
            self.wf(),
        ensures
            match r {
                Some(s) => self.current_id() is Some && s@ == self.deck@[self.current_id()->0].0,
                None => self.current_id() is None,
            },
    {
        match self.current_card() {
            Some(card) => Some(card.front.clone()),
            None => None,
        }
    }

    /// The back of the current card; `None` once no card remains.
    pub fn current_card_back(&self) -> (r: Option<String>)
        requires
            self.wf(),
        ensures
            match r {
                Some(s) => self.current_id() is Some && s@ == self.deck@[self.current_id()->0].1,
                None => self.current_id() is None,
            },
    {
        match self.current_card() {
            Some(card) => Some(card.back.clone()),
            None => None,
        }
    }

    /// Whether every card has been sorted out of `remaining`.
    pub fn is_done(&self) -> (r: bool)
        ensures
            r == (self.run@.remaining.len() == 0),
    {
        self.run.remaining.len() == 0
    }
}


/// A session: the run data, the side shown, and how many cards have been
/// sorted since the pass began.
pub struct RunState {
    pub run_data: RunData,
    pub card_content_state: CardContentState,
    pub count: usize,
}

/// A session resumed from a parsed run file and the deck it names: the run
/// is checked and reconciled with the deck, and shows the front of its
/// first card.
pub fn load_run_state(run: PracticeRun, deck: Deck) -> (r: Result<RunState, ParsingError>)
    requires
        deck.wf(),
    ensures
        match r {
            Ok(state) => {
                &&& run@.partitioned()
                &&& state.run_data.deck == deck
                &&& reconciled(run@, deck@.dom(), state.run_data.run@)
                &&& state.run_data.run@.partitioned()
                &&& state.run_data.run@.id_set() == deck@.dom()
                &&& state.run_data.wf()
                &&& state.card_content_state == CardContentState::Front
                &&& state.count == 0
            },
            Err(e) => !run@.partitioned() && reports_first_repeat(run@.all_ids(), e@),
        },
{
    match load_practice_run(run, deck) {
        Ok((run, deck)) => {
            let run_data = RunData { deck, run };
            Ok(RunState { card_content_state: CardContentState::Front, run_data, count: 0 })
        },
        Err(e) => Err(e),
    }
}

/// A fresh session over `deck`, read from `deck_path`: every card id
/// shuffled into `remaining`.
pub fn new_run_state(deck: Deck, deck_path: String) -> (r: RunState)
    requires
        deck.wf(),
    ensures
        r.run_data.deck == deck,
        r.run_data.run@.deck_path == deck_path@,
        r.run_data.run@.last_save.len() == 0,
        r.run_data.run@.remaining.no_duplicates(),
        r.run_data.run@.remaining.to_set() == deck@.dom(),
        r.run_data.run@.memorized.len() == 0,
        r.run_data.run@.working.len() == 0,
        r.run_data.run@.incorrect.len() == 0,
        r.run_data.wf(),
        r.card_content_state == CardContentState::Front,
        r.count == 0,
{
    let mut run = PracticeRun::new_from_deck(&deck);
    run.deck_path = deck_path;
    proof {
        assert(run@.all_ids() =~= run@.remaining);
    }
    let run_data = RunData { deck, run };
    RunState { card_content_state: CardContentState::Front, run_data, count: 0 }
}

/// Starts a pass over one category: its ids join `remaining`, which is
/// then shuffled.
pub fn setup_run(category: RunCategory, run: &mut PracticeRun)
    ensures
        same_ids(old(run)@, final(run)@),
        final(run)@.remaining.to_multiset() == old(run)@.remaining.to_multiset().add(
            if category == RunCategory::Remaining {
                Multiset::empty()
            } else {
                old(run)@.cat(category).to_multiset()
            },
        ),
        category != RunCategory::Remaining ==> final(run)@.cat(category).len() == 0,
        forall|c: RunCategory|
            c != category && c != RunCategory::Remaining ==> #[trigger] final(run)@.cat(c) == old(
                run,
            )@.cat(c),
        final(run)@.partitioned() == old(run)@.partitioned(),
        final(run)@.id_set() == old(run)@.id_set(),
{
    let ghost before = run@;
    run.move_category(category, RunCategory::Remaining);
    let ghost moved = run@;
    proof {
        vstd::seq_lib::lemma_multiset_commutative(before.remaining, before.cat(category));
    }
    run.shuffle(RunCategory::Remaining);
    proof {
        lemma_same_ids_trans(before, moved, run@);
    }
}

/// Starts a pass over the whole deck: every id goes back to `remaining`,
/// which is then shuffled.
pub fn setup_run_all(run: &mut PracticeRun)
    ensures
        same_ids(old(run)@, final(run)@),
        final(run)@.remaining.to_multiset() == old(run)@.all_ids().to_multiset(),
        final(run)@.remaining.len() == old(run)@.all_ids().len(),
        final(run)@.incorrect.len() == 0,
        final(run)@.working.len() == 0,
        final(run)@.memorized.len() == 0,
        final(run)@.partitioned() == old(run)@.partitioned(),
        final(run)@.id_set() == old(run)@.id_set(),
{
    run.reset();
}

proof fn lemma_same_ids_trans(a: RunView, b: RunView, c: RunView)
    requires
        same_ids(a, b),
        same_ids(b, c),
    ensures
        same_ids(a, c),
{
}

} // verus!
