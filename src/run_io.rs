//! The run file format: the deck's path, then sections that each start with
//! a category name and list one id per line. Loading reconciles the run with
//! the deck it refers to.
use vstd::prelude::*;

use vstd::string::StringExecFns;

use crate::deck_io::{blank_between, read_text, scan, LineCursor, ParsingError};
use crate::lines::{join_lines, joined, lines_view, split_lines, text_lines};
use crate::run_actions::RunCategory;
use crate::run_actions::first_index;
use crate::text::{blank, decimal, id_of, id_text, lower_of, lowercase, parse_id};
use crate::{Deck, PracticeRun, RunView};
use vstd::std_specs::iter::IteratorSpec;

verus! {

broadcast use vstd::std_specs::hash::group_hash_axioms;

/// The category that a lower-cased header line names.
pub open spec fn category_named(h: Seq<char>) -> Option<RunCategory> {
    if h == "remaining"@ {
        Some(RunCategory::Remaining)
    } else if h == "working"@ {
        Some(RunCategory::Working)
    } else if h == "incorrect"@ {
        Some(RunCategory::Incorrect)
    } else if h == "memorized"@ {
        Some(RunCategory::Memorized)
    } else {
        None
    }
}

/// The header word of a category.
pub open spec fn category_word(c: RunCategory) -> Seq<char> {
    match c {
        RunCategory::Remaining => "remaining"@,
        RunCategory::Working => "working"@,
        RunCategory::Incorrect => "incorrect"@,
        RunCategory::Memorized => "memorized"@,
    }
}

/// The category named by a header line that is already in lower case.
pub fn header_category(lowered: &str) -> (r: Option<RunCategory>)
    ensures
        r == category_named(lowered@),
{
    let h = lowered.to_owned();
    if h == "remaining".to_owned() {
        Some(RunCategory::Remaining)
    } else if h == "working".to_owned() {
        Some(RunCategory::Working)
    } else if h == "incorrect".to_owned() {
        Some(RunCategory::Incorrect)
    } else if h == "memorized".to_owned() {
        Some(RunCategory::Memorized)
    } else {
        None
    }
}

pub open spec fn unexpected_heading_message(h: Seq<char>) -> Seq<char> {
    "Unexpected heading "@ + h
}

pub open spec fn missing_deck_path_message() -> Seq<char> {
    "Expected deck file path."@
}

/// Reading the sections of a run file from line `pos` on. `current` is the
/// category whose id list is being read, if any.
pub open spec fn parse_sections(
    ls: Seq<Seq<char>>,
    pos: int,
    run: RunView,
    current: Option<RunCategory>,
) -> Result<RunView, Seq<char>>
    decreases ls.len() - pos,
{
    if pos < 0 || pos >= ls.len() {
        Ok(run)
    } else if current is Some && id_of(ls[pos]) is Some {
        let c = current->0;
        parse_sections(ls, pos + 1, run.with_cat(c, run.cat(c).push(id_of(ls[pos])->0)), current)
    } else if blank(ls[pos]) {
        parse_sections(ls, pos + 1, run, None)
    } else {
        let h = lower_of(ls[pos]);
        match category_named(h) {
            None => Err(unexpected_heading_message(h)),
            Some(c) => parse_sections(ls, pos + 1, run.with_cat(c, Seq::empty()), Some(c)),
        }
    }
}

/// An empty run over the deck at `deck_path`.
pub open spec fn empty_run(deck_path: Seq<char>, last_save: Seq<char>) -> RunView {
    RunView {
        deck_path,
        last_save,
        remaining: Seq::empty(),
        memorized: Seq::empty(),
        working: Seq::empty(),
        incorrect: Seq::empty(),
    }
}

/// Reading a run file from line `pos` on, before its deck path.
pub open spec fn parse_head(ls: Seq<Seq<char>>, pos: int, last_save: Seq<char>) -> Result<
    RunView,
    Seq<char>,
>
    decreases ls.len() - pos,
{
    if pos < 0 || pos >= ls.len() {
        Err(missing_deck_path_message())
    } else if blank(ls[pos]) {
        parse_head(ls, pos + 1, last_save)
    } else {
        parse_sections(ls, pos + 1, empty_run(ls[pos], last_save), None)
    }
}

/// What the run format makes of a file's lines, for a file saved at
/// `last_save`.
pub open spec fn parse_run(ls: Seq<Seq<char>>, last_save: Seq<char>) -> Result<RunView, Seq<char>> {
    parse_head(ls, 0, last_save)
}

/// The ids on lines `a` up to `b`.
pub open spec fn ids_between(ls: Seq<Seq<char>>, a: int, b: int) -> Seq<usize> {
    Seq::new((b - a) as nat, |i: int| id_of(ls[a + i])->0)
}

proof fn lemma_head_skip_blank(ls: Seq<Seq<char>>, a: int, b: int, last_save: Seq<char>)
    requires
        0 <= a <= b <= ls.len(),
        blank_between(ls, a, b),
    ensures
        parse_head(ls, a, last_save) == parse_head(ls, b, last_save),
    decreases b - a,
{
    if a < b {
        lemma_head_skip_blank(ls, a + 1, b, last_save);
    }
}

proof fn lemma_sections_skip_blank(ls: Seq<Seq<char>>, a: int, b: int, run: RunView)
    requires
        0 <= a <= b <= ls.len(),
        blank_between(ls, a, b),
    ensures
        parse_sections(ls, a, run, None) == parse_sections(ls, b, run, None),
    decreases b - a,
{
    if a < b {
        lemma_sections_skip_blank(ls, a + 1, b, run);
    }
}

proof fn lemma_section_ids(ls: Seq<Seq<char>>, a: int, b: int, run: RunView, c: RunCategory)
    requires
        0 <= a <= b <= ls.len(),
        forall|j: int| a <= j < b ==> id_of(#[trigger] ls[j]) is Some,
        b == ls.len() || id_of(ls[b]) is None,
    ensures
        parse_sections(ls, a, run, Some(c)) == parse_sections(
            ls,
            b,
            run.with_cat(c, run.cat(c) + ids_between(ls, a, b)),
            None,
        ),
    decreases b - a,
{
    if a < b {
        let next = run.with_cat(c, run.cat(c).push(id_of(ls[a])->0));
        lemma_section_ids(ls, a + 1, b, next, c);
        assert(next.cat(c) + ids_between(ls, a + 1, b) =~= run.cat(c) + ids_between(ls, a, b));
        assert(next.with_cat(c, next.cat(c) + ids_between(ls, a + 1, b)) == run.with_cat(
            c,
            run.cat(c) + ids_between(ls, a, b),
        ));
    } else {
        assert(run.cat(c) + ids_between(ls, a, b) =~= run.cat(c));
        assert(run.with_cat(c, run.cat(c)) == run);
    }
}

/// Reads the ids that follow a header, up to the first line that is not one.
fn read_id_list(reader: &mut LineCursor) -> (r: Vec<usize>)
    requires
        old(reader).wf(),
    ensures
        final(reader).wf(),
        final(reader).lines == old(reader).lines,
        old(reader).pos <= final(reader).pos,
        forall|j: int|
            old(reader).pos <= j < final(reader).pos ==> id_of(#[trigger] old(reader).text()[j]) is Some,
        final(reader).pos == final(reader).lines@.len() || id_of(
            final(reader).text()[final(reader).pos as int],
        ) is None,
        r@ == ids_between(old(reader).text(), old(reader).pos as int, final(reader).pos as int),
{
    let mut ids: Vec<usize> = Vec::new();
    loop
        invariant
            reader.wf(),
            reader.lines == old(reader).lines,
            old(reader).pos <= reader.pos,
            forall|j: int| old(reader).pos <= j < reader.pos ==> id_of(#[trigger] old(reader).text()[j]) is Some,
            ids@ == ids_between(old(reader).text(), old(reader).pos as int, reader.pos as int),
        ensures
            reader.wf(),
            reader.lines == old(reader).lines,
            old(reader).pos <= reader.pos,
            forall|j: int| old(reader).pos <= j < reader.pos ==> id_of(#[trigger] old(reader).text()[j]) is Some,
            ids@ == ids_between(old(reader).text(), old(reader).pos as int, reader.pos as int),
            reader.pos == reader.lines@.len() || id_of(reader.text()[reader.pos as int]) is None,
        decreases reader.lines@.len() - reader.pos,
    {
        let parsed = match reader.peek() {
            Some(line) => parse_id(line.as_str()),
            None => {
                break;
            },
        };
        match parsed {
            Some(id) => {
                ids.push(id);
                reader.advance();
                proof {
                    assert(ids@ =~= ids_between(old(reader).text(), old(reader).pos as int, reader.pos as int));
                }
            },
            None => {
                break;
            },
        }
    }
    ids
}

fn scan_or_error(reader: &mut LineCursor, error_msg: &str) -> (r: Result<(), ParsingError>)
    requires
        old(reader).wf(),
    ensures
        final(reader).wf(),
        final(reader).lines == old(reader).lines,
        old(reader).pos <= final(reader).pos,
        blank_between(old(reader).text(), old(reader).pos as int, final(reader).pos as int),
        match r {
            Ok(()) => final(reader).pos < final(reader).lines@.len() && !blank(
                final(reader).text()[final(reader).pos as int],
            ),
            Err(e) => final(reader).pos == final(reader).lines@.len() && e@ == error_msg@,
        },
{
    if !scan(reader) {
        Err(ParsingError::new(error_msg.to_owned()))
    } else {
        Ok(())
    }
}

/// Parses the lines of a run file saved at `last_save`. The run is not yet
/// checked for ids listed twice, nor reconciled with its deck.
pub fn load_run_lines(lines: &[String], last_save: String) -> (r: Result<
    PracticeRun,
    ParsingError,
>)
    ensures
        match r {
            Ok(run) => parse_run(lines_view(lines@), last_save@) == Ok::<RunView, Seq<char>>(run@),
            Err(e) => parse_run(lines_view(lines@), last_save@) == Err::<RunView, Seq<char>>(e@),
        },
{
    let ghost ls = lines_view(lines@);
    let mut reader = LineCursor::new(lines);
    let mut run = PracticeRun::new();
    run.last_save = last_save;
    match scan_or_error(&mut reader, "Expected deck file path.") {
        Ok(()) => {},
        Err(e) => {
            proof {
                lemma_head_skip_blank(ls, 0, reader.pos as int, last_save@);
            }
            return Err(e);
        },
    }
    proof {
        lemma_head_skip_blank(ls, 0, reader.pos as int, last_save@);
    }
    run.deck_path = match read_text(&mut reader) {
        Ok(s) => s,
        Err(e) => {
            return Err(e);
        },
    };
    proof {
        assert(run@.remaining =~= Seq::empty());
        assert(run@.memorized =~= Seq::empty());
        assert(run@.working =~= Seq::empty());
        assert(run@.incorrect =~= Seq::empty());
        assert(run@ == empty_run(run@.deck_path, last_save@));
    }
    loop
        invariant
            reader.wf(),
            reader.lines@ == lines@,
            reader.text() == ls,
            parse_run(ls, last_save@) == parse_sections(ls, reader.pos as int, run@, None),
        decreases reader.lines@.len() - reader.pos,
    {
        let ghost start = reader.pos as int;
        let more = scan(&mut reader);
        proof {
            lemma_sections_skip_blank(ls, start, reader.pos as int, run@);
        }
        if !more {
            return Ok(run);
        }
        let ghost p = reader.pos as int;
        let line = match read_text(&mut reader) {
            Ok(s) => s,
            Err(e) => {
                return Err(e);
            },
        };
        let header = lowercase(line.as_str());
        match header_category(header.as_str()) {
            Some(c) => {
                let ghost opened = run@.with_cat(c, Seq::empty());
                let ghost q = reader.pos as int;
                let ids = read_id_list(&mut reader);
                proof {
                    lemma_section_ids(ls, q, reader.pos as int, opened, c);
                    assert(opened.cat(c) + ids@ =~= ids@);
                }
                let slot = run.category_array(c);
                *slot = ids;
                proof {
                    assert(run@ == opened.with_cat(c, opened.cat(c) + ids_between(ls, q, reader.pos as int)));
                }
            },
            None => {
                let mut message = "Unexpected heading ".to_owned();
                message.append(header.as_str());
                return Err(ParsingError::new(message));
            },
        }
    }
}

/// The id at position `k` of `s` occurs earlier in `s`.
pub open spec fn repeats_at(s: Seq<usize>, k: int) -> bool {
    0 <= k < s.len() && s.subrange(0, k).contains(s[k])
}

pub open spec fn duplicate_message(id: usize) -> Seq<char> {
    "Run file invalid: id "@ + decimal(id as nat) + " found in multiple locations."@
}

/// `msg` reports the first id of `all` that repeats an earlier one.
pub open spec fn reports_first_repeat(all: Seq<usize>, msg: Seq<char>) -> bool {
    exists|k: int|
        #[trigger] repeats_at(all, k) && (forall|j: int| 0 <= j < k ==> !repeats_at(all, j)) && msg
            == duplicate_message(all[k])
}

fn push_all(dst: &mut Vec<usize>, src: &Vec<usize>)
    ensures
        final(dst)@ == old(dst)@ + src@,
{
    let mut i: usize = 0;
    while i < src.len()
        invariant
            i <= src@.len(),
            dst@ == old(dst)@ + src@.subrange(0, i as int),
        decreases src@.len() - i,
    {
        dst.push(src[i]);
        i = i + 1;
        proof {
            assert(dst@ =~= old(dst)@ + src@.subrange(0, i as int));
        }
    }
    proof {
        assert(src@.subrange(0, i as int) =~= src@);
    }
}

/// Checks that no id is listed twice, within a category or across two, and
/// returns the set of listed ids. Categories are scanned in the order
/// remaining, incorrect, memorized, working; the error names the first id
/// met a second time.
pub fn check_duplicates(run: &PracticeRun) -> (r: Result<
    std::collections::HashSet<usize>,
    ParsingError,
>)
    ensures
        match r {
            Ok(set) => run@.partitioned() && set@ == run@.id_set(),
            Err(e) => !run@.partitioned() && reports_first_repeat(run@.all_ids(), e@),
        },
{
    let mut all: Vec<usize> = Vec::new();
    push_all(&mut all, &run.remaining);
    push_all(&mut all, &run.incorrect);
    push_all(&mut all, &run.memorized);
    push_all(&mut all, &run.working);
    let ghost ids = run@.all_ids();
    assert(all@ == ids);
    let mut set: std::collections::HashSet<usize> = std::collections::HashSet::new();
    let mut i: usize = 0;
    while i < all.len()
        invariant
            all@ == ids,
            ids == run@.all_ids(),
            i <= ids.len(),
            set@ == ids.subrange(0, i as int).to_set(),
            ids.subrange(0, i as int).no_duplicates(),
            forall|j: int| 0 <= j < i ==> !repeats_at(ids, j),
        decreases ids.len() - i,
    {
        let id = all[i];
        let ghost prefix = ids.subrange(0, i as int);
        if !set.insert(id) {
            proof {
                assert(prefix.contains(id));
                assert(repeats_at(ids, i as int));
                let m = choose|m: int| 0 <= m < prefix.len() && prefix[m] == id;
                assert(ids[m] == ids[i as int]);
                assert(!ids.no_duplicates());
            }
            let mut message = "Run file invalid: id ".to_owned();
            let digits = id_text(id);
            message.append(digits.as_str());
            message.append(" found in multiple locations.");
            proof {
                assert(message@ == duplicate_message(ids[i as int]));
                assert(reports_first_repeat(ids, message@));
            }
            return Err(ParsingError::new(message));
        }
        proof {
            let next = ids.subrange(0, i + 1);
            assert(next =~= prefix.push(id));
            assert(set@ =~= next.to_set()) by {
                assert forall|x: usize| set@.contains(x) <==> next.contains(x) by {
                    if x == id {
                        assert(next[i as int] == id);
                    }
                    if next.contains(x) && x != id {
                        let m = choose|m: int| 0 <= m < next.len() && next[m] == x;
                        assert(prefix[m] == x);
                    }
                }
            }
            assert(!repeats_at(ids, i as int));
        }
        i = i + 1;
    }
    proof {
        assert(ids.subrange(0, ids.len() as int) =~= ids);
    }
    Ok(set)
}

/// `r` without the first occurrence of `id`, searching remaining, then
/// incorrect, memorized and working.
pub open spec fn without_id(r: RunView, id: usize) -> RunView {
    if r.remaining.contains(id) {
        r.with_cat(RunCategory::Remaining, r.remaining.remove(first_index(r.remaining, id)))
    } else if r.incorrect.contains(id) {
        r.with_cat(RunCategory::Incorrect, r.incorrect.remove(first_index(r.incorrect, id)))
    } else if r.memorized.contains(id) {
        r.with_cat(RunCategory::Memorized, r.memorized.remove(first_index(r.memorized, id)))
    } else if r.working.contains(id) {
        r.with_cat(RunCategory::Working, r.working.remove(first_index(r.working, id)))
    } else {
        r
    }
}

fn remove_from(run: &mut PracticeRun, c: RunCategory, id: usize) -> (found: bool)
    ensures
        found == old(run)@.cat(c).contains(id),
        final(run)@ == if found {
            old(run)@.with_cat(c, old(run)@.cat(c).remove(first_index(old(run)@.cat(c), id)))
        } else {
            old(run)@
        },
{
    let v = run.category_array(c);
    match crate::run_actions::position_of(v, id) {
        Some(i) => {
            proof {
                assert(v@.contains(id));
            }
            v.remove(i);
            true
        },
        None => false,
    }
}

/// Drops a card id from the run: its first occurrence, looking in
/// remaining, incorrect, memorized and working in turn.
pub fn remove_id(run: &mut PracticeRun, id: usize)
    ensures
        final(run)@ == without_id(old(run)@, id),
{
    if remove_from(run, RunCategory::Remaining, id) {
        return;
    }
    if remove_from(run, RunCategory::Incorrect, id) {
        return;
    }
    if remove_from(run, RunCategory::Memorized, id) {
        return;
    }
    remove_from(run, RunCategory::Working, id);
}

/// The ids of `s` that lie in `dom`, in their order.
pub open spec fn kept(s: Seq<usize>, dom: Set<usize>) -> Seq<usize>
    decreases s.len(),
{
    if s.len() == 0 {
        s
    } else if dom.contains(s.last()) {
        kept(s.drop_last(), dom).push(s.last())
    } else {
        kept(s.drop_last(), dom)
    }
}

pub(crate) proof fn lemma_kept_contains(s: Seq<usize>, dom: Set<usize>, x: usize)
    ensures
        kept(s, dom).contains(x) <==> s.contains(x) && dom.contains(x),
    decreases s.len(),
{
    if s.len() > 0 {
        let t = s.drop_last();
        lemma_kept_contains(t, dom, x);
        assert(s =~= t.push(s.last()));
        if kept(t, dom).contains(x) {
            let m = choose|m: int| 0 <= m < kept(t, dom).len() && kept(t, dom)[m] == x;
            if dom.contains(s.last()) {
                assert(kept(s, dom)[m] == x);
            }
        }
        if t.contains(x) {
            let m = choose|m: int| 0 <= m < t.len() && t[m] == x;
            assert(s[m] == x);
        }
        if s.contains(x) && !t.contains(x) {
            let m = choose|m: int| 0 <= m < s.len() && s[m] == x;
            if m < t.len() {
                assert(t[m] == x);
            }
        }
        if dom.contains(s.last()) {
            let k = kept(s, dom);
            assert(k[k.len() - 1] == s.last());
        }
    }
}

proof fn lemma_kept_no_dup(s: Seq<usize>, dom: Set<usize>)
    requires
        s.no_duplicates(),
    ensures
        kept(s, dom).no_duplicates(),
    decreases s.len(),
{
    if s.len() > 0 {
        let t = s.drop_last();
        assert(t.no_duplicates());
        lemma_kept_no_dup(t, dom);
        lemma_kept_contains(t, dom, s.last());
        if t.contains(s.last()) {
            let m = choose|m: int| 0 <= m < t.len() && t[m] == s.last();
            assert(s[m] == s[s.len() - 1]);
        }
    }
}

proof fn lemma_kept_concat(a: Seq<usize>, b: Seq<usize>, dom: Set<usize>)
    ensures
        kept(a + b, dom) == kept(a, dom) + kept(b, dom),
    decreases b.len(),
{
    if b.len() == 0 {
        assert(a + b =~= a);
        assert(kept(a, dom) + kept(b, dom) =~= kept(a, dom));
    } else {
        lemma_kept_concat(a, b.drop_last(), dom);
        assert((a + b).drop_last() =~= a + b.drop_last());
        assert((a + b).last() == b.last());
        if dom.contains(b.last()) {
            assert(kept(a + b, dom) =~= kept(a, dom) + kept(b, dom));
        } else {
            assert(kept(a + b, dom) =~= kept(a, dom) + kept(b, dom));
        }
    }
}

fn keep_known(v: &Vec<usize>, deck: &Deck) -> (r: Vec<usize>)
    ensures
        r@ == kept(v@, deck@.dom()),
{
    let mut out: Vec<usize> = Vec::new();
    let mut i: usize = 0;
    while i < v.len()
        invariant
            i <= v@.len(),
            out@ == kept(v@.subrange(0, i as int), deck@.dom()),
        decreases v@.len() - i,
    {
        let ghost next = v@.subrange(0, i + 1);
        proof {
            assert(next.drop_last() =~= v@.subrange(0, i as int));
            assert(next.last() == v@[i as int]);
        }
        if deck.cards.contains_key(&v[i]) {
            out.push(v[i]);
        }
        i = i + 1;
    }
    proof {
        assert(v@.subrange(0, i as int) =~= v@);
    }
    out
}

/// `new` is `old` aligned with a deck whose ids are `dom`: every category
/// keeps, in order, its ids that are in `dom`; `remaining` then gets the ids
/// of `dom` that `old` did not track, each once.
pub open spec fn reconciled(old: RunView, dom: Set<usize>, new: RunView) -> bool {
    let k = kept(old.remaining, dom);
    let added = new.remaining.subrange(k.len() as int, new.remaining.len() as int);
    &&& new.deck_path == old.deck_path
    &&& new.last_save == old.last_save
    &&& new.incorrect == kept(old.incorrect, dom)
    &&& new.memorized == kept(old.memorized, dom)
    &&& new.working == kept(old.working, dom)
    &&& k.len() <= new.remaining.len()
    &&& new.remaining.subrange(0, k.len() as int) == k
    &&& added.no_duplicates()
    &&& added.to_set() == dom.difference(old.id_set())
}

/// After reconciliation a partitioned run tracks exactly the deck's ids,
/// each once.
pub proof fn lemma_reconciled_partition(old: RunView, dom: Set<usize>, new: RunView)
    requires
        old.partitioned(),
        reconciled(old, dom, new),
    ensures
        new.partitioned(),
        new.id_set() == dom,
{
    let kr = kept(old.remaining, dom);
    let added = new.remaining.subrange(kr.len() as int, new.remaining.len() as int);
    let rest = kept(old.incorrect, dom) + kept(old.memorized, dom) + kept(old.working, dom);
    let all = old.all_ids();
    lemma_kept_concat(old.remaining, old.incorrect, dom);
    lemma_kept_concat(old.remaining + old.incorrect, old.memorized, dom);
    lemma_kept_concat(old.remaining + old.incorrect + old.memorized, old.working, dom);
    let big = kept(all, dom);
    assert(big =~= kr + rest);
    lemma_kept_no_dup(all, dom);
    assert(new.remaining =~= kr + added);
    assert(new.all_ids() =~= (kr + added) + rest);
    assert forall|x: usize| big.contains(x) <==> all.contains(x) && dom.contains(x) by {
        lemma_kept_contains(all, dom, x);
    }
    assert forall|x: usize| added.contains(x) <==> dom.contains(x) && !all.contains(x) by {
        assert(added.to_set().contains(x) == added.contains(x));
    }
    assert forall|i: int| 0 <= i < kr.len() implies #[trigger] big[i] == kr[i] by {}
    assert forall|i: int| 0 <= i < rest.len() implies #[trigger] big[kr.len() + i] == rest[i] by {}
    assert(kr.no_duplicates()) by {
        assert forall|i: int, j: int| 0 <= i < kr.len() && 0 <= j < kr.len() && i != j implies kr[i]
            != kr[j] by {
            assert(big[i] == kr[i] && big[j] == kr[j]);
        }
    }
    assert(rest.no_duplicates()) by {
        assert forall|i: int, j: int|
            0 <= i < rest.len() && 0 <= j < rest.len() && i != j implies rest[i] != rest[j] by {
            assert(big[kr.len() + i] == rest[i] && big[kr.len() + j] == rest[j]);
        }
    }
    assert forall|i: int, j: int| 0 <= i < kr.len() && 0 <= j < added.len() implies kr[i]
        != added[j] by {
        assert(big.contains(kr[i])) by {
            assert(big[i] == kr[i]);
        }
        assert(added.contains(added[j]));
    }
    vstd::seq_lib::lemma_no_dup_in_concat(kr, added);
    let front = kr + added;
    assert forall|i: int, j: int| 0 <= i < front.len() && 0 <= j < rest.len() implies front[i]
        != rest[j] by {
        if i < kr.len() {
            assert(front[i] == big[i]);
            assert(rest[j] == big[kr.len() + j]);
        } else {
            assert(front[i] == added[i - kr.len()]);
            assert(added.contains(added[i - kr.len()]));
            assert(big.contains(rest[j])) by {
                assert(big[kr.len() + j] == rest[j]);
            }
        }
    }
    vstd::seq_lib::lemma_no_dup_in_concat(front, rest);
    assert(new.id_set() =~= dom) by {
        assert forall|x: usize| new.all_ids().contains(x) <==> dom.contains(x) by {
            let n = new.all_ids();
            if dom.contains(x) {
                if all.contains(x) {
                    let m = choose|m: int| 0 <= m < big.len() && big[m] == x;
                    if m < kr.len() {
                        assert(n[m] == x);
                    } else {
                        assert(rest[m - kr.len()] == x);
                        assert(n[kr.len() + added.len() + (m - kr.len())] == x);
                    }
                } else {
                    let m = choose|m: int| 0 <= m < added.len() && added[m] == x;
                    assert(n[kr.len() + m] == x);
                }
            }
            if n.contains(x) {
                let m = choose|m: int| 0 <= m < n.len() && n[m] == x;
                if m < kr.len() {
                    assert(big[m] == x);
                } else if m < kr.len() + added.len() {
                    assert(added[m - kr.len()] == x);
                } else {
                    assert(big[m - added.len()] == x);
                }
            }
        }
    }
}

/// Checks a parsed run for ids listed twice, then aligns it with `deck`, the
/// deck that its `deck_path` names: ids that the deck no longer has drop out,
/// and the deck's ids that the run does not list join `remaining`.
pub fn load_practice_run(run: PracticeRun, deck: Deck) -> (r: Result<
    (PracticeRun, Deck),
    ParsingError,
>)
    ensures
        match r {
            Ok((new_run, new_deck)) => {
                &&& run@.partitioned()
                &&& new_deck == deck
                &&& reconciled(run@, deck@.dom(), new_run@)
                &&& new_run@.partitioned()
                &&& new_run@.id_set() == deck@.dom()
            },
            Err(e) => !run@.partitioned() && reports_first_repeat(run@.all_ids(), e@),
        },
{
    let run_ids = match check_duplicates(&run) {
        Ok(set) => set,
        Err(e) => {
            return Err(e);
        },
    };
    let ghost old_run = run@;
    let ghost dom = deck@.dom();
    let ghost fresh = dom.difference(old_run.id_set());
    let mut remaining = keep_known(&run.remaining, &deck);
    let incorrect = keep_known(&run.incorrect, &deck);
    let memorized = keep_known(&run.memorized, &deck);
    let working = keep_known(&run.working, &deck);
    let mut added: Vec<usize> = Vec::new();
    let ghost all_keys = vstd::std_specs::hash::spec_keys_iter(&deck.cards).remaining().unref();
    proof {
        assert(deck@.dom() =~= deck.cards@.dom());
    }
    for id in it: deck.cards.keys()
        invariant
            it.seq().unref() == all_keys,
            0 <= it.index() <= all_keys.len(),
            all_keys.to_set() == dom,
            dom == deck.cards@.dom(),
            run_ids@ == old_run.id_set(),
            fresh == dom.difference(old_run.id_set()),
            added@ == kept(all_keys.subrange(0, it.index()), fresh),
    {
        let ghost next = all_keys.subrange(0, it.index() + 1);
        let ghost k = all_keys[it.index()];
        proof {
            assert(next.drop_last() =~= all_keys.subrange(0, it.index()));
            assert(next.last() == k);
            assert(*id == k);
            assert(all_keys.contains(k));
            assert(all_keys.to_set().contains(k));
        }
        if !run_ids.contains(id) {
            added.push(*id);
        }
    }
    proof {
        assert(all_keys.subrange(0, all_keys.len() as int) =~= all_keys);
        assert(all_keys.no_duplicates());
        lemma_kept_no_dup(all_keys, fresh);
        assert(added@.to_set() =~= fresh) by {
            assert forall|x: usize| added@.contains(x) <==> fresh.contains(x) by {
                lemma_kept_contains(all_keys, fresh, x);
                assert(all_keys.to_set().contains(x) == all_keys.contains(x));
            }
        }
    }
    let ghost kr = remaining@;
    let ghost added_ids = added@;
    remaining.append(&mut added);
    let mut run = run;
    run.remaining = remaining;
    run.incorrect = incorrect;
    run.memorized = memorized;
    run.working = working;
    proof {
        assert(run@.remaining.subrange(0, kr.len() as int) =~= kr);
        assert(run@.remaining.subrange(kr.len() as int, run@.remaining.len() as int) =~= added_ids);
        assert(reconciled(old_run, dom, run@));
        lemma_reconciled_partition(old_run, dom, run@);
    }
    Ok((run, deck))
}

/// Ids in ascending order.
pub open spec fn ascending(s: Seq<usize>) -> bool {
    forall|i: int, j: int| 0 <= i < j < s.len() ==> s[i] <= s[j]
}

/// `t` is `s` sorted in ascending order.
pub open spec fn sorted_of(t: Seq<usize>, s: Seq<usize>) -> bool {
    ascending(t) && t.to_multiset() == s.to_multiset()
}

/// Relies on std's `slice::sort`: the same ids, in ascending order.
#[verifier::external_body]
fn sort_ids(v: &mut Vec<usize>)
    ensures
        sorted_of(final(v)@, old(v)@),
{
    v.sort();
}

/// One line per id, in decimal.
pub open spec fn id_lines(ids: Seq<usize>) -> Seq<Seq<char>> {
    Seq::new(ids.len(), |i: int| decimal(ids[i] as nat))
}

/// A run file: a blank line, the deck path, a blank line, then each category
/// under its header word, and a closing blank line.
pub open spec fn run_file_lines(
    deck_path: Seq<char>,
    remaining: Seq<usize>,
    working: Seq<usize>,
    incorrect: Seq<usize>,
    memorized: Seq<usize>,
) -> Seq<Seq<char>> {
    seq![Seq::empty(), deck_path, Seq::empty()] + seq![category_word(RunCategory::Remaining)]
        + id_lines(remaining) + seq![category_word(RunCategory::Working)] + id_lines(working)
        + seq![category_word(RunCategory::Incorrect)] + id_lines(incorrect) + seq![
        category_word(RunCategory::Memorized),
    ] + id_lines(memorized) + seq![Seq::empty()]
}

proof fn lemma_lines_push(w: Seq<String>, x: String)
    ensures
        lines_view(w.push(x)) == lines_view(w) + seq![x@],
{
    assert(lines_view(w.push(x)) =~= lines_view(w) + seq![x@]);
}

fn write_ids(w: &mut Vec<String>, ids: &Vec<usize>)
    ensures
        lines_view(final(w)@) == lines_view(old(w)@) + id_lines(ids@),
{
    let mut i: usize = 0;
    while i < ids.len()
        invariant
            i <= ids@.len(),
            lines_view(w@) == lines_view(old(w)@) + id_lines(ids@.subrange(0, i as int)),
        decreases ids@.len() - i,
    {
        let ghost prev = w@;
        let line = id_text(ids[i]);
        let ghost text = line@;
        w.push(line);
        proof {
            lemma_lines_push(prev, line);
            assert(id_lines(ids@.subrange(0, i + 1)) =~= id_lines(ids@.subrange(0, i as int)) + seq![text]);
        }
        i = i + 1;
    }
    proof {
        assert(ids@.subrange(0, i as int) =~= ids@);
    }
}

fn sorted_copy(v: &Vec<usize>) -> (r: Vec<usize>)
    ensures
        sorted_of(r@, v@),
{
    let mut copy: Vec<usize> = Vec::new();
    push_all(&mut copy, v);
    assert(copy@ =~= v@);
    sort_ids(&mut copy);
    copy
}

fn push_line(w: &mut Vec<String>, line: String)
    ensures
        lines_view(final(w)@) == lines_view(old(w)@) + seq![line@],
{
    let ghost prev = w@;
    let ghost text = line@;
    w.push(line);
    proof {
        assert(lines_view(w@) =~= lines_view(prev) + seq![text]);
    }
}

/// The lines of a run file that stores `run`, each category sorted in
/// ascending order.
pub fn run_lines(run: &PracticeRun) -> (r: Vec<String>)
    ensures
        exists|a: Seq<usize>, b: Seq<usize>, c: Seq<usize>, d: Seq<usize>|
            sorted_of(a, run@.remaining) && sorted_of(b, run@.working) && sorted_of(
                c,
                run@.incorrect,
            ) && sorted_of(d, run@.memorized) && lines_view(r@) == #[trigger] run_file_lines(
                run@.deck_path,
                a,
                b,
                c,
                d,
            ),
{
    let remaining = sorted_copy(&run.remaining);
    let working = sorted_copy(&run.working);
    let incorrect = sorted_copy(&run.incorrect);
    let memorized = sorted_copy(&run.memorized);
    let mut w: Vec<String> = Vec::new();
    let ghost e = Seq::<char>::empty();
    push_line(&mut w, String::new());
    push_line(&mut w, run.deck_path.clone());
    push_line(&mut w, String::new());
    proof {
        assert(lines_view(w@) =~= seq![e, run@.deck_path, e]);
    }
    push_line(&mut w, "remaining".to_owned());
    write_ids(&mut w, &remaining);
    push_line(&mut w, "working".to_owned());
    write_ids(&mut w, &working);
    push_line(&mut w, "incorrect".to_owned());
    write_ids(&mut w, &incorrect);
    push_line(&mut w, "memorized".to_owned());
    write_ids(&mut w, &memorized);
    push_line(&mut w, String::new());
    proof {
        assert(lines_view(w@) == run_file_lines(
            run@.deck_path,
            remaining@,
            working@,
            incorrect@,
            memorized@,
        ));
    }
    w
}

/// Parses the text of a run file saved at `last_save`. The run is not yet
/// checked for ids listed twice, nor reconciled with its deck.
pub fn load_practice_run_file(text: &str, last_save: String) -> (r: Result<
    PracticeRun,
    ParsingError,
>)
    ensures
        match r {
            Ok(run) => parse_run(split_lines(text@), last_save@) == Ok::<RunView, Seq<char>>(run@),
            Err(e) => parse_run(split_lines(text@), last_save@) == Err::<RunView, Seq<char>>(e@),
        },
{
    let lines = text_lines(text);
    load_run_lines(lines.as_slice(), last_save)
}

/// The text of a run file that stores `run`, one line per `run_lines` entry.
pub fn save_practice_run(run: &PracticeRun) -> (r: String)
    ensures
        exists|a: Seq<usize>, b: Seq<usize>, c: Seq<usize>, d: Seq<usize>|
            sorted_of(a, run@.remaining) && sorted_of(b, run@.working) && sorted_of(
                c,
                run@.incorrect,
            ) && sorted_of(d, run@.memorized) && r@ == joined(
                #[trigger] run_file_lines(run@.deck_path, a, b, c, d),
            ),
{
    let lines = run_lines(run);
    join_lines(lines.as_slice())
}

} // verus!
