//! The deck file format: blank-line separated records of an id line, a
//! front line and a back line.
use vstd::prelude::*;

use vstd::std_specs::iter::IteratorSpec;
use vstd::string::StringExecFns;

use crate::lines::{join_lines, joined, lines_view, split_lines, text_lines};
use crate::text::{blank, decimal, id_of, id_text, is_blank, parse_id};
use crate::{Card, Deck};

verus! {

broadcast use vstd::std_specs::hash::group_hash_axioms;

/// A malformed deck or run file, with a message that names the offending
/// line.
#[derive(Debug)]
pub struct ParsingError {
    pub error_message: String,
}

impl View for ParsingError {
    type V = Seq<char>;

    open spec fn view(&self) -> Seq<char> {
        self.error_message@
    }
}

impl ParsingError {
    pub fn new(error_message: String) -> (r: ParsingError)
        ensures
            r@ == error_message@,
    {
        ParsingError { error_message }
    }

    pub fn box_new(error_message: String) -> (r: Box<ParsingError>)
        ensures
            r@ == error_message@,
    {
        Box::new(ParsingError::new(error_message))
    }
}

/// A position in a sequence of lines, with one line of lookahead.
pub struct LineCursor<'a> {
    pub lines: &'a [String],
    pub pos: usize,
}

impl<'a> LineCursor<'a> {
    pub open spec fn text(&self) -> Seq<Seq<char>> {
        lines_view(self.lines@)
    }

    pub open spec fn wf(&self) -> bool {
        self.pos <= self.lines@.len()
    }

    pub fn new(lines: &'a [String]) -> (r: LineCursor<'a>)
        ensures
            r.lines@ == lines@,
            r.pos == 0,
    {
        LineCursor { lines, pos: 0 }
    }

    /// The next line, left in place.
    pub fn peek(&self) -> (r: Option<&'a String>)
        requires
            self.wf(),
        ensures
            match r {
                Some(l) => self.pos < self.lines@.len() && l@ == self.text()[self.pos as int],
                None => self.pos == self.lines@.len(),
            },
    {
        if self.pos < self.lines.len() {
            Some(&self.lines[self.pos])
        } else {
            None
        }
    }

    /// The next line, consumed.
    pub fn advance(&mut self) -> (r: Option<&'a String>)
        requires
            old(self).wf(),
        ensures
            final(self).wf(),
            final(self).lines == old(self).lines,
            match r {
                Some(l) => old(self).pos < old(self).lines@.len() && l@ == old(self).text()[old(
                    self,
                ).pos as int] && final(self).pos == old(self).pos + 1,
                None => old(self).pos == old(self).lines@.len() && final(self).pos == old(self).pos,
            },
    {
        if self.pos < self.lines.len() {
            let l = &self.lines[self.pos];
            self.pos = self.pos + 1;
            Some(l)
        } else {
            None
        }
    }
}

/// All lines from `a` up to `b` are blank.
pub open spec fn blank_between(ls: Seq<Seq<char>>, a: int, b: int) -> bool {
    forall|j: int| a <= j < b ==> blank(#[trigger] ls[j])
}

/// Skips blank lines; tells whether a line is left.
pub(crate) fn scan(reader: &mut LineCursor) -> (r: bool)
    requires
        old(reader).wf(),
    ensures
        final(reader).wf(),
        final(reader).lines == old(reader).lines,
        old(reader).pos <= final(reader).pos,
        blank_between(old(reader).text(), old(reader).pos as int, final(reader).pos as int),
        r == (final(reader).pos < final(reader).lines@.len()),
        r ==> !blank(final(reader).text()[final(reader).pos as int]),
{
    loop
        invariant
            reader.wf(),
            reader.lines == old(reader).lines,
            old(reader).pos <= reader.pos,
            blank_between(old(reader).text(), old(reader).pos as int, reader.pos as int),
        ensures
            reader.wf(),
            reader.lines == old(reader).lines,
            old(reader).pos <= reader.pos,
            blank_between(old(reader).text(), old(reader).pos as int, reader.pos as int),
            reader.pos == reader.lines@.len() || !blank(reader.text()[reader.pos as int]),
        decreases reader.lines@.len() - reader.pos,
    {
        match reader.peek() {
            Some(line) => {
                if !is_blank(line.as_str()) {
                    break;
                }
            },
            None => {
                break;
            },
        }
        reader.advance();
    }
    reader.pos < reader.lines.len()
}

/// The message for a line that should hold a card id.
pub open spec fn bad_id_message(line: Seq<char>) -> Seq<char> {
    "Card id "@ + line + " must be a number."@
}

/// The message for a record cut short.
pub open spec fn missing_content_message() -> Seq<char> {
    "Expected card content"@
}

/// The message for a missing id line.
pub open spec fn missing_id_message() -> Seq<char> {
    "Deck file invalid. Expected card id."@
}

/// Reading the deck format from line `pos` on, with the cards read so far:
/// the final map, or the message of the first error.
pub open spec fn parse_cards(
    ls: Seq<Seq<char>>,
    pos: int,
    cards: Map<usize, (Seq<char>, Seq<char>)>,
) -> Result<Map<usize, (Seq<char>, Seq<char>)>, Seq<char>>
    decreases ls.len() - pos,
{
    if pos < 0 || pos >= ls.len() {
        Ok(cards)
    } else if blank(ls[pos]) {
        parse_cards(ls, pos + 1, cards)
    } else {
        match id_of(ls[pos]) {
            None => Err(bad_id_message(ls[pos])),
            Some(id) => if pos + 2 >= ls.len() {
                Err(missing_content_message())
            } else {
                parse_cards(ls, pos + 3, cards.insert(id, (ls[pos + 1], ls[pos + 2])))
            },
        }
    }
}

/// What the deck format makes of a file's lines.
pub open spec fn parse_deck(ls: Seq<Seq<char>>) -> Result<Map<usize, (Seq<char>, Seq<char>)>, Seq<char>> {
    parse_cards(ls, 0, Map::empty())
}

proof fn lemma_cards_skip_blank(ls: Seq<Seq<char>>, a: int, b: int, m: Map<usize, (Seq<char>, Seq<char>)>)
    requires
        0 <= a <= b <= ls.len(),
        blank_between(ls, a, b),
    ensures
        parse_cards(ls, a, m) == parse_cards(ls, b, m),
    decreases b - a,
{
    if a < b {
        lemma_cards_skip_blank(ls, a + 1, b, m);
    }
}

fn read_id(reader: &mut LineCursor) -> (r: Result<usize, ParsingError>)
    requires
        old(reader).wf(),
    ensures
        final(reader).wf(),
        final(reader).lines == old(reader).lines,
        old(reader).pos < old(reader).lines@.len() ==> final(reader).pos == old(reader).pos + 1,
        match r {
            Ok(id) => old(reader).pos < old(reader).lines@.len() && id_of(
                old(reader).text()[old(reader).pos as int],
            ) == Some(id),
            Err(e) => if old(reader).pos < old(reader).lines@.len() {
                id_of(old(reader).text()[old(reader).pos as int]) is None && e@ == bad_id_message(
                    old(reader).text()[old(reader).pos as int],
                )
            } else {
                e@ == missing_id_message()
            },
        },
{
    match reader.advance() {
        Some(line) => {
            match parse_id(line.as_str()) {
                Some(id) => Ok(id),
                None => {
                    let mut message = "Card id ".to_owned();
                    message.append(line.as_str());
                    message.append(" must be a number.");
                    Err(ParsingError::new(message))
                },
            }
        },
        None => Err(ParsingError::new("Deck file invalid. Expected card id.".to_owned())),
    }
}

pub(crate) fn read_text(reader: &mut LineCursor) -> (r: Result<String, ParsingError>)
    requires
        old(reader).wf(),
    ensures
        final(reader).wf(),
        final(reader).lines == old(reader).lines,
        match r {
            Ok(s) => old(reader).pos < old(reader).lines@.len() && s@ == old(reader).text()[old(
                reader,
            ).pos as int] && final(reader).pos == old(reader).pos + 1,
            Err(e) => old(reader).pos == old(reader).lines@.len() && e@
                == missing_content_message(),
        },
{
    match reader.advance() {
        Some(line) => Ok(line.clone()),
        None => Err(ParsingError::new("Expected card content".to_owned())),
    }
}

/// Reads the next record, if any line but blank ones is left.
fn read_card(reader: &mut LineCursor) -> (r: Result<Option<Card>, ParsingError>)
    requires
        old(reader).wf(),
    ensures
        final(reader).wf(),
        final(reader).lines == old(reader).lines,
        forall|m: Map<usize, (Seq<char>, Seq<char>)>|
            #![trigger parse_cards(old(reader).text(), old(reader).pos as int, m)]
            match r {
                Ok(None) => parse_cards(old(reader).text(), old(reader).pos as int, m) == Ok::<
                    Map<usize, (Seq<char>, Seq<char>)>,
                    Seq<char>,
                >(m),
                Ok(Some(c)) => old(reader).pos < final(reader).pos && parse_cards(
                    old(reader).text(),
                    old(reader).pos as int,
                    m,
                ) == parse_cards(
                    old(reader).text(),
                    final(reader).pos as int,
                    m.insert(c.card_id, (c.front@, c.back@)),
                ),
                Err(e) => parse_cards(old(reader).text(), old(reader).pos as int, m) == Err::<
                    Map<usize, (Seq<char>, Seq<char>)>,
                    Seq<char>,
                >(e@),
            },
{
    let ghost start = reader.pos as int;
    let ghost ls = reader.text();
    if !scan(reader) {
        proof {
            assert forall|m: Map<usize, (Seq<char>, Seq<char>)>| parse_cards(ls, start, m) == Ok::<
                Map<usize, (Seq<char>, Seq<char>)>,
                Seq<char>,
            >(m) by {
                lemma_cards_skip_blank(ls, start, reader.pos as int, m);
            }
        }
        return Ok(None);
    }
    let ghost p = reader.pos as int;
    proof {
        assert forall|m: Map<usize, (Seq<char>, Seq<char>)>| #[trigger]
            parse_cards(ls, start, m) == parse_cards(ls, p, m) by {
            lemma_cards_skip_blank(ls, start, p, m);
        }
    }
    let card_id = match read_id(reader) {
        Ok(id) => id,
        Err(e) => {
            return Err(e);
        },
    };
    let front = match read_text(reader) {
        Ok(s) => s,
        Err(e) => {
            return Err(e);
        },
    };
    let back = match read_text(reader) {
        Ok(s) => s,
        Err(e) => {
            return Err(e);
        },
    };
    Ok(Some(Card { front, back, card_id }))
}

/// Parses a deck from the lines of a deck file. Where an id occurs twice,
/// the later record wins.
pub fn load_deck_lines(lines: &[String]) -> (r: Result<Deck, ParsingError>)
    ensures
        match r {
            Ok(d) => d.wf() && parse_deck(lines_view(lines@)) == Ok::<
                Map<usize, (Seq<char>, Seq<char>)>,
                Seq<char>,
            >(d@),
            Err(e) => parse_deck(lines_view(lines@)) == Err::<
                Map<usize, (Seq<char>, Seq<char>)>,
                Seq<char>,
            >(e@),
        },
{
    let mut reader = LineCursor::new(lines);
    let mut cards: std::collections::HashMap<usize, Card> = std::collections::HashMap::new();
    proof {
        assert(Deck { cards }@ =~= Map::empty());
    }
    loop
        invariant
            reader.wf(),
            reader.lines@ == lines@,
            (Deck { cards }).wf(),
            parse_deck(lines_view(lines@)) == parse_cards(reader.text(), reader.pos as int, (Deck { cards })@),
        decreases reader.lines@.len() - reader.pos,
    {
        match read_card(&mut reader) {
            Ok(Some(card)) => {
                let ghost before = (Deck { cards })@;
                let ghost entry = (card.front@, card.back@);
                let ghost id = card.card_id;
                cards.insert(card.card_id, card);
                proof {
                    assert((Deck { cards })@ =~= before.insert(id, entry));
                }
            },
            Ok(None) => {
                return Ok(Deck { cards });
            },
            Err(e) => {
                return Err(e);
            },
        }
    }
}

/// The four lines that store the card with id `k`.
pub open spec fn record_lines(d: Map<usize, (Seq<char>, Seq<char>)>, k: usize) -> Seq<Seq<char>> {
    seq![decimal(k as nat), d[k].0, d[k].1, Seq::empty()]
}

/// The records of the cards with ids `ks`, in that order.
pub open spec fn records(d: Map<usize, (Seq<char>, Seq<char>)>, ks: Seq<usize>) -> Seq<Seq<char>>
    decreases ks.len(),
{
    if ks.len() == 0 {
        Seq::empty()
    } else {
        record_lines(d, ks[0]) + records(d, ks.drop_first())
    }
}

/// A deck file that lists the cards of `d` in the order `ks`: a blank line,
/// then one record per card.
pub open spec fn deck_file_lines(d: Map<usize, (Seq<char>, Seq<char>)>, ks: Seq<usize>) -> Seq<Seq<char>> {
    seq![Seq::<char>::empty()] + records(d, ks)
}

proof fn lemma_records_push(d: Map<usize, (Seq<char>, Seq<char>)>, ks: Seq<usize>, k: usize)
    ensures
        records(d, ks.push(k)) == records(d, ks) + record_lines(d, k),
    decreases ks.len(),
{
    if ks.len() == 0 {
        let one = ks.push(k);
        assert(one.drop_first() =~= Seq::<usize>::empty());
        assert(records(d, one.drop_first()) == Seq::<Seq<char>>::empty());
        assert(one[0] == k);
        assert(records(d, one) == record_lines(d, k) + records(d, one.drop_first()));
        assert(record_lines(d, k) + Seq::<Seq<char>>::empty() =~= record_lines(d, k));
        assert(records(d, ks) == Seq::<Seq<char>>::empty());
        assert(records(d, ks) + record_lines(d, k) =~= record_lines(d, k));
    } else {
        assert(ks.push(k).drop_first() =~= ks.drop_first().push(k));
        lemma_records_push(d, ks.drop_first(), k);
        assert(records(d, ks.push(k)) =~= records(d, ks) + record_lines(d, k));
    }
}

/// The lines of a deck file that holds `deck`: a blank line, then for each
/// card its id, front, back and a blank line. The cards come in the order
/// in which the map is walked.
pub fn deck_lines(deck: &Deck) -> (r: Vec<String>)
    ensures
        exists|ks: Seq<usize>|
            ks.no_duplicates() && ks.to_set() == deck@.dom() && lines_view(r@) == deck_file_lines(
                deck@,
                ks,
            ),
{
    let mut out: Vec<String> = Vec::new();
    out.push(String::new());
    let ghost all_keys = vstd::std_specs::hash::spec_keys_iter(&deck.cards).remaining().unref();
    for id in it: deck.cards.keys()
        invariant
            it.seq().unref() == all_keys,
            0 <= it.index() <= all_keys.len(),
            forall|j: int| 0 <= j < all_keys.len() ==> deck.cards@.contains_key(#[trigger] all_keys[j]),
            lines_view(out@) == deck_file_lines(deck@, all_keys.subrange(0, it.index())),
    {
        let ghost before = all_keys.subrange(0, it.index());
        let ghost k = all_keys[it.index()];
        proof {
            assert(all_keys.subrange(0, it.index() + 1) =~= before.push(k));
            lemma_records_push(deck@, before, k);
            assert(*id == k);
            assert(deck.cards@.contains_key(k));
        }
        match deck.cards.get(id) {
            Some(card) => {
                let ghost prev = lines_view(out@);
                out.push(id_text(*id));
                out.push(card.front.clone());
                out.push(card.back.clone());
                out.push(String::new());
                proof {
                    assert(*card == deck.cards@[k]);
                    assert(lines_view(out@) =~= prev + record_lines(deck@, k));
                }
            },
            None => {},
        }
        proof {
            assert(lines_view(out@) =~= deck_file_lines(deck@, all_keys.subrange(0, it.index() + 1)));
        }
    }
    proof {
        let ks = all_keys;
        assert(ks.subrange(0, ks.len() as int) =~= ks);
        assert(ks.to_set() =~= deck@.dom());
        assert(ks.no_duplicates());
    }
    out
}

/// Parses a deck file's text. Where an id occurs twice, the later record
/// wins.
pub fn load_deck(text: &str) -> (r: Result<Deck, ParsingError>)
    ensures
        match r {
            Ok(d) => d.wf() && parse_deck(split_lines(text@)) == Ok::<
                Map<usize, (Seq<char>, Seq<char>)>,
                Seq<char>,
            >(d@),
            Err(e) => parse_deck(split_lines(text@)) == Err::<
                Map<usize, (Seq<char>, Seq<char>)>,
                Seq<char>,
            >(e@),
        },
{
    let lines = text_lines(text);
    load_deck_lines(lines.as_slice())
}

/// The text of a deck file that holds `deck`, one line per `deck_lines`
/// entry.
pub fn save_deck(deck: &Deck) -> (r: String)
    ensures
        exists|ks: Seq<usize>|
            ks.no_duplicates() && ks.to_set() == deck@.dom() && r@ == joined(
                deck_file_lines(deck@, ks),
            ),
{
    let lines = deck_lines(deck);
    join_lines(lines.as_slice())
}

} // verus!
