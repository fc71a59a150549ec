//! Properties that relate several operations of the library, stated over
//! the models that the operations' own contracts use.
use vstd::prelude::*;

use crate::deck_io::{deck_file_lines, parse_cards, parse_deck, record_lines, records};
use crate::run_actions::{same_ids, skipped, RunCategory};
use crate::run_io::{lemma_kept_contains, reconciled};
use crate::lines::{joined, lemma_split_joined, split_lines, storable};
use crate::text::{blank, decimal, id_of, lemma_decimal_digits, lemma_id_round_trip};
use crate::RunView;

verus! {

/// The cards `m` after the records of `ks`, in order, from `d`.
pub open spec fn insert_all(
    m: Map<usize, (Seq<char>, Seq<char>)>,
    d: Map<usize, (Seq<char>, Seq<char>)>,
    ks: Seq<usize>,
) -> Map<usize, (Seq<char>, Seq<char>)>
    decreases ks.len(),
{
    if ks.len() == 0 {
        m
    } else {
        insert_all(m.insert(ks[0], d[ks[0]]), d, ks.drop_first())
    }
}

proof fn lemma_cards_shift(
    a: Seq<Seq<char>>,
    b: Seq<Seq<char>>,
    j: int,
    m: Map<usize, (Seq<char>, Seq<char>)>,
)
    requires
        0 <= j,
    ensures
        parse_cards(a + b, a.len() + j, m) == parse_cards(b, j, m),
    decreases b.len() - j,
{
    let ls = a + b;
    if j < b.len() {
        assert(ls[a.len() + j] == b[j]);
        if blank(b[j]) {
            lemma_cards_shift(a, b, j + 1, m);
        } else if let Some(id) = id_of(b[j]) {
            if j + 2 < b.len() {
                assert(ls[a.len() + j + 1] == b[j + 1]);
                assert(ls[a.len() + j + 2] == b[j + 2]);
                lemma_cards_shift(a, b, j + 3, m.insert(id, (b[j + 1], b[j + 2])));
            }
        }
    }
}

proof fn lemma_digit_line_not_blank(k: usize)
    ensures
        !blank(decimal(k as nat)),
        id_of(decimal(k as nat)) == Some(k),
{
    lemma_decimal_digits(k as nat);
    lemma_id_round_trip(k);
    let s = decimal(k as nat);
    assert('0' <= s[0] && s[0] <= '9');
}

proof fn lemma_records_parse(
    d: Map<usize, (Seq<char>, Seq<char>)>,
    ks: Seq<usize>,
    m: Map<usize, (Seq<char>, Seq<char>)>,
)
    ensures
        parse_cards(records(d, ks), 0, m) == Ok::<
            Map<usize, (Seq<char>, Seq<char>)>,
            Seq<char>,
        >(insert_all(m, d, ks)),
    decreases ks.len(),
{
    if ks.len() > 0 {
        let k = ks[0];
        let head = record_lines(d, k);
        let rest = records(d, ks.drop_first());
        let ls = records(d, ks);
        assert(ls == head + rest);
        lemma_digit_line_not_blank(k);
        assert(ls[0] == decimal(k as nat));
        assert(ls[1] == d[k].0);
        assert(ls[2] == d[k].1);
        assert(ls[3] == Seq::<char>::empty());
        let m2 = m.insert(k, (d[k].0, d[k].1));
        assert(parse_cards(ls, 0, m) == parse_cards(ls, 3, m2));
        assert(blank(ls[3]));
        assert(parse_cards(ls, 3, m2) == parse_cards(ls, 4, m2));
        lemma_cards_shift(head, rest, 0, m2);
        lemma_records_parse(d, ks.drop_first(), m2);
        assert(d[k] == (d[k].0, d[k].1));
    }
}

proof fn lemma_insert_all(
    m: Map<usize, (Seq<char>, Seq<char>)>,
    d: Map<usize, (Seq<char>, Seq<char>)>,
    ks: Seq<usize>,
    x: usize,
)
    ensures
        insert_all(m, d, ks).contains_key(x) <==> m.contains_key(x) || ks.contains(x),
        ks.contains(x) ==> insert_all(m, d, ks)[x] == d[x],
        !ks.contains(x) && m.contains_key(x) ==> insert_all(m, d, ks)[x] == m[x],
    decreases ks.len(),
{
    if ks.len() > 0 {
        let t = ks.drop_first();
        lemma_insert_all(m.insert(ks[0], d[ks[0]]), d, t, x);
        if ks.contains(x) && x != ks[0] {
            let i = choose|i: int| 0 <= i < ks.len() && ks[i] == x;
            assert(t[i - 1] == x);
        }
        if t.contains(x) {
            let i = choose|i: int| 0 <= i < t.len() && t[i] == x;
            assert(ks[i + 1] == x);
        }
        if x == ks[0] {
            assert(ks.contains(x));
        }
    }
}

/// Deck round trip on lines: parsing the lines that `deck_lines` gives for
/// a deck, in whatever order it walks the cards, yields the same map from id
/// to (front, back).
pub proof fn law_deck_round_trip(d: Map<usize, (Seq<char>, Seq<char>)>, ks: Seq<usize>)
    requires
        ks.no_duplicates(),
        ks.to_set() == d.dom(),
    ensures
        parse_deck(deck_file_lines(d, ks)) == Ok::<Map<usize, (Seq<char>, Seq<char>)>, Seq<char>>(
            d,
        ),
{
    let ls = deck_file_lines(d, ks);
    let empty = Map::<usize, (Seq<char>, Seq<char>)>::empty();
    assert(blank(ls[0]));
    assert(parse_cards(ls, 0, empty) == parse_cards(ls, 1, empty));
    lemma_cards_shift(seq![Seq::<char>::empty()], records(d, ks), 0, empty);
    lemma_records_parse(d, ks, empty);
    assert(insert_all(empty, d, ks) =~= d) by {
        assert forall|x: usize| #[trigger] insert_all(empty, d, ks).contains_key(x) <==> d.contains_key(x) by {
            lemma_insert_all(empty, d, ks, x);
            assert(ks.to_set().contains(x) == ks.contains(x));
        }
        assert forall|x: usize| #[trigger] d.contains_key(x) implies insert_all(empty, d, ks)[x] == d[x] by {
            lemma_insert_all(empty, d, ks, x);
            assert(ks.to_set().contains(x) == ks.contains(x));
        }
    }
}

proof fn lemma_records_storable(d: Map<usize, (Seq<char>, Seq<char>)>, ks: Seq<usize>)
    requires
        forall|k: usize| #[trigger] d.contains_key(k) ==> storable(d[k].0) && storable(d[k].1),
        forall|i: int| 0 <= i < ks.len() ==> d.contains_key(#[trigger] ks[i]),
    ensures
        forall|i: int| 0 <= i < records(d, ks).len() ==> storable(#[trigger] records(d, ks)[i]),
    decreases ks.len(),
{
    if ks.len() > 0 {
        let k = ks[0];
        let rest = ks.drop_first();
        assert forall|i: int| 0 <= i < rest.len() implies d.contains_key(#[trigger] rest[i]) by {
            assert(rest[i] == ks[i + 1]);
        }
        lemma_records_storable(d, rest);
        lemma_decimal_digits(k as nat);
        let digits = decimal(k as nat);
        assert(!digits.contains('\n')) by {
            if digits.contains('\n') {
                let i = choose|i: int| 0 <= i < digits.len() && digits[i] == '\n';
                assert('0' <= digits[i] && digits[i] <= '9');
            }
        }
        assert('0' <= digits[digits.len() - 1] && digits[digits.len() - 1] <= '9');
        assert(storable(digits));
        assert(storable(Seq::<char>::empty()));
        let head = record_lines(d, k);
        let tail = records(d, rest);
        assert forall|i: int| 0 <= i < records(d, ks).len() implies storable(
            #[trigger] records(d, ks)[i],
        ) by {
            if i >= 4 {
                assert(records(d, ks)[i] == tail[i - 4]);
            }
        }
    }
}

/// Deck file round trip: the text that `save_deck` writes for a deck loads
/// back as the same map from id to (front, back), where no front or back
/// holds a line feed or ends in a carriage return.
pub proof fn law_deck_file_round_trip(d: Map<usize, (Seq<char>, Seq<char>)>, ks: Seq<usize>)
    requires
        ks.no_duplicates(),
        ks.to_set() == d.dom(),
        forall|k: usize| #[trigger] d.contains_key(k) ==> storable(d[k].0) && storable(d[k].1),
    ensures
        parse_deck(split_lines(joined(deck_file_lines(d, ks)))) == Ok::<
            Map<usize, (Seq<char>, Seq<char>)>,
            Seq<char>,
        >(d),
{
    assert forall|i: int| 0 <= i < ks.len() implies d.contains_key(#[trigger] ks[i]) by {
        assert(ks.to_set().contains(ks[i]));
    }
    lemma_records_storable(d, ks);
    let ls = deck_file_lines(d, ks);
    assert forall|i: int| 0 <= i < ls.len() implies storable(#[trigger] ls[i]) by {
        if i > 0 {
            assert(ls[i] == records(d, ks)[i - 1]);
        } else {
            assert(storable(Seq::<char>::empty()));
        }
    }
    lemma_split_joined(ls);
    law_deck_round_trip(d, ks);
}

proof fn lemma_cards_extend(
    ls: Seq<Seq<char>>,
    t: Seq<Seq<char>>,
    pos: int,
    m: Map<usize, (Seq<char>, Seq<char>)>,
    m2: Map<usize, (Seq<char>, Seq<char>)>,
)
    requires
        0 <= pos <= ls.len(),
        parse_cards(ls, pos, m) == Ok::<Map<usize, (Seq<char>, Seq<char>)>, Seq<char>>(m2),
    ensures
        parse_cards(ls + t, pos, m) == parse_cards(ls + t, ls.len() as int, m2),
    decreases ls.len() - pos,
{
    let all = ls + t;
    if pos < ls.len() {
        assert(all[pos] == ls[pos]);
        if blank(ls[pos]) {
            lemma_cards_extend(ls, t, pos + 1, m, m2);
        } else if let Some(id) = id_of(ls[pos]) {
            assert(all[pos + 1] == ls[pos + 1]);
            assert(all[pos + 2] == ls[pos + 2]);
            lemma_cards_extend(ls, t, pos + 3, m.insert(id, (ls[pos + 1], ls[pos + 2])), m2);
        }
    }
}

/// Duplicate ids: a record appended to a well-formed deck file decides what
/// its id maps to, whatever an earlier record of the same id said.
pub proof fn law_later_record_wins(ls: Seq<Seq<char>>, id: usize, front: Seq<char>, back: Seq<char>)
    requires
        parse_deck(ls) is Ok,
    ensures
        parse_deck(ls + seq![decimal(id as nat), front, back]) == Ok::<
            Map<usize, (Seq<char>, Seq<char>)>,
            Seq<char>,
        >(parse_deck(ls)->Ok_0.insert(id, (front, back))),
{
    let t = seq![decimal(id as nat), front, back];
    let m2 = parse_deck(ls)->Ok_0;
    let empty = Map::<usize, (Seq<char>, Seq<char>)>::empty();
    lemma_cards_extend(ls, t, 0, empty, m2);
    lemma_cards_shift(ls, t, 0, m2);
    lemma_digit_line_not_blank(id);
    assert(parse_cards(t, 0, m2) == parse_cards(t, 3, m2.insert(id, (front, back))));
}

/// Partition invariant: along any sequence of runs in which each step keeps
/// the tracked ids (as every run operation ensures), a run that starts
/// partitioned over the ids `dom` stays partitioned over exactly `dom`.
pub proof fn law_partition_invariant(trace: Seq<RunView>, dom: Set<usize>)
    requires
        trace.len() > 0,
        trace[0].partitioned(),
        trace[0].id_set() == dom,
        forall|i: int| 0 <= i < trace.len() - 1 ==> same_ids(#[trigger] trace[i], trace[i + 1]),
    ensures
        forall|i: int| 0 <= i < trace.len() ==> (#[trigger] trace[i]).partitioned() && trace[i].id_set() == dom,
{
    assert forall|i: int| 0 <= i < trace.len() implies (#[trigger] trace[i]).partitioned() && trace[i].id_set()
        == dom by {
        lemma_trace_prefix(trace, dom, i);
    }
}

proof fn lemma_trace_prefix(trace: Seq<RunView>, dom: Set<usize>, i: int)
    requires
        0 <= i < trace.len(),
        trace[0].partitioned(),
        trace[0].id_set() == dom,
        forall|j: int| 0 <= j < trace.len() - 1 ==> same_ids(#[trigger] trace[j], trace[j + 1]),
    ensures
        trace[i].partitioned() && trace[i].id_set() == dom,
    decreases i,
{
    if i > 0 {
        lemma_trace_prefix(trace, dom, i - 1);
        assert(same_ids(trace[i - 1], trace[i]));
        crate::run_actions::lemma_same_ids(trace[i - 1], trace[i]);
    }
}

/// Reconciliation adds: an id of the deck that the run did not list ends up
/// in `remaining`.
pub proof fn law_reconcile_adds(old: RunView, dom: Set<usize>, new: RunView, id: usize)
    requires
        reconciled(old, dom, new),
        dom.contains(id),
        !old.id_set().contains(id),
    ensures
        new.remaining.contains(id),
{
    let k = crate::run_io::kept(old.remaining, dom);
    let added = new.remaining.subrange(k.len() as int, new.remaining.len() as int);
    assert(added.to_set().contains(id));
    let i = choose|i: int| 0 <= i < added.len() && added[i] == id;
    assert(new.remaining[k.len() + i] == id);
}

/// Reconciliation removes: an id that the deck does not have is tracked in
/// no category afterwards.
pub proof fn law_reconcile_removes(old: RunView, dom: Set<usize>, new: RunView, id: usize)
    requires
        reconciled(old, dom, new),
        !dom.contains(id),
    ensures
        !new.id_set().contains(id),
{
    let k = crate::run_io::kept(old.remaining, dom);
    let added = new.remaining.subrange(k.len() as int, new.remaining.len() as int);
    lemma_kept_contains(old.remaining, dom, id);
    lemma_kept_contains(old.incorrect, dom, id);
    lemma_kept_contains(old.memorized, dom, id);
    lemma_kept_contains(old.working, dom, id);
    assert(new.remaining =~= k + added);
    if new.all_ids().contains(id) {
        let i = choose|i: int| 0 <= i < new.all_ids().len() && new.all_ids()[i] == id;
        let n = new.all_ids();
        if i < k.len() {
            assert(k[i] == id);
        } else if i < new.remaining.len() {
            assert(added[i - k.len()] == id);
            assert(added.to_set().contains(id));
        } else if i < new.remaining.len() + new.incorrect.len() {
            assert(new.incorrect[i - new.remaining.len()] == id);
        } else if i < new.remaining.len() + new.incorrect.len() + new.memorized.len() {
            assert(new.memorized[i - new.remaining.len() - new.incorrect.len()] == id);
        } else {
            assert(new.working[i - new.remaining.len() - new.incorrect.len() - new.memorized.len()] == id);
        }
    }
}

/// Cross-category duplicates: a run that lists one id under two categories
/// is not partitioned, so loading it fails.
pub proof fn law_cross_category_duplicate(run: RunView, id: usize, a: RunCategory, b: RunCategory)
    requires
        a != b,
        run.cat(a).contains(id),
        run.cat(b).contains(id),
    ensures
        !run.partitioned(),
{
    let all = run.all_ids();
    let r = run.remaining.len();
    let ri = r + run.incorrect.len();
    let rim = ri + run.memorized.len();
    let i = choose|i: int| 0 <= i < run.cat(a).len() && run.cat(a)[i] == id;
    let j = choose|j: int| 0 <= j < run.cat(b).len() && run.cat(b)[j] == id;
    let pa = match a {
        RunCategory::Remaining => i,
        RunCategory::Incorrect => r + i,
        RunCategory::Memorized => ri + i,
        RunCategory::Working => rim + i,
    };
    let pb = match b {
        RunCategory::Remaining => j,
        RunCategory::Incorrect => r + j,
        RunCategory::Memorized => ri + j,
        RunCategory::Working => rim + j,
    };
    assert(all[pa] == id);
    assert(all[pb] == id);
    assert(pa != pb);
}

/// Skipping with a single card left changes nothing.
pub proof fn law_skip_single(run: RunView)
    requires
        run.remaining.len() == 1,
    ensures
        skipped(run) == run,
{
    assert(seq![run.remaining.last()] + run.remaining.drop_last() =~= run.remaining);
}

} // verus!
