//! The operations that move card ids between the categories of a run.
use vstd::prelude::*;

use vstd::multiset::Multiset;

use crate::{PracticeRun, RunView};

verus! {

broadcast use vstd::multiset::group_multiset_axioms;

/// A study-progress bucket for a card id.
#[derive(Debug, Clone, Copy, PartialEq, Eq, Structural)]
pub enum RunCategory {
    Remaining,
    Memorized,
    Working,
    Incorrect,
}

/// Misuse of a run operation.
#[derive(Debug, Clone, Copy, PartialEq, Eq, Structural)]
pub enum RunActionError {
    /// The id is not in the named category.
    IdNotFound(usize, RunCategory),
}

/// Relies on rand's `SliceRandom::shuffle` with `thread_rng`: it swaps
/// elements in place (Fisher-Yates), so the result is a permutation of the input.
#[verifier::external_body]
fn shuffle_vec(v: &mut Vec<usize>)
    ensures
        final(v)@.len() == old(v)@.len(),
        final(v)@.to_multiset() == old(v)@.to_multiset(),
{
    rand::seq::SliceRandom::shuffle(v.as_mut_slice(), &mut rand::thread_rng());
}

/// Two runs that track the same ids with the same multiplicities agree on
/// partitioning and on the tracked set.
pub proof fn lemma_same_ids(a: RunView, b: RunView)
    requires
        a.all_ids().to_multiset() == b.all_ids().to_multiset(),
    ensures
        a.partitioned() == b.partitioned(),
        a.id_set() == b.id_set(),
{
    broadcast use vstd::seq_lib::group_to_multiset_ensures;

    if a.partitioned() {
        a.all_ids().lemma_multiset_has_no_duplicates();
        b.all_ids().lemma_multiset_has_no_duplicates_conv();
    }
    if b.partitioned() {
        b.all_ids().lemma_multiset_has_no_duplicates();
        a.all_ids().lemma_multiset_has_no_duplicates_conv();
    }
    assert(a.id_set() =~= b.id_set()) by {
        assert forall|x: usize| a.all_ids().contains(x) <==> b.all_ids().contains(x) by {
            vstd::seq_lib::to_multiset_contains(a.all_ids(), x);
            vstd::seq_lib::to_multiset_contains(b.all_ids(), x);
        }
    }
}

/// The multiset of all ids, counted category by category.
pub open spec fn bag_of(r: RunView) -> Multiset<usize> {
    r.remaining.to_multiset().add(r.incorrect.to_multiset()).add(r.memorized.to_multiset()).add(
        r.working.to_multiset(),
    )
}

proof fn lemma_bag_of(r: RunView)
    ensures
        r.all_ids().to_multiset() == bag_of(r),
{
    broadcast use vstd::seq_lib::lemma_multiset_commutative;

    let a = r.remaining + r.incorrect;
    let b = a + r.memorized;
    assert(r.all_ids() == b + r.working);
}

impl PracticeRun {
    /// The vector behind category `c`.
    pub fn category_array(&mut self, c: RunCategory) -> (v: &mut Vec<usize>)
        ensures
            v@ == old(self)@.cat(c),
            final(self)@ == old(self)@.with_cat(c, final(v)@),
    {
        match c {
            RunCategory::Remaining => &mut self.remaining,
            RunCategory::Memorized => &mut self.memorized,
            RunCategory::Working => &mut self.working,
            RunCategory::Incorrect => &mut self.incorrect,
        }
    }
}

/// The position of the first `x` in `s`, or `s.len()` where there is none.
pub open spec fn first_index(s: Seq<usize>, x: usize) -> int
    decreases s.len(),
{
    if s.len() == 0 {
        0
    } else if s[0] == x {
        0
    } else {
        1 + first_index(s.subrange(1, s.len() as int), x)
    }
}

proof fn lemma_first_index(s: Seq<usize>, x: usize, i: int)
    requires
        0 <= i <= s.len(),
        forall|j: int| 0 <= j < i ==> s[j] != x,
        i == s.len() || s[i] == x,
    ensures
        first_index(s, x) == i,
    decreases s.len(),
{
    if s.len() > 0 && s[0] != x {
        let t = s.subrange(1, s.len() as int);
        assert forall|j: int| 0 <= j < i - 1 implies t[j] != x by {
            assert(t[j] == s[j + 1]);
        }
        if i < s.len() {
            assert(t[i - 1] == s[i]);
        }
        lemma_first_index(t, x, i - 1);
    }
}

/// The position of the first `id` in `v`.
pub fn position_of(v: &Vec<usize>, id: usize) -> (r: Option<usize>)
    ensures
        match r {
            Some(i) => i < v@.len() && v@[i as int] == id && i == first_index(v@, id),
            None => !v@.contains(id),
        },
{
    let mut i: usize = 0;
    while i < v.len() && v[i] != id
        invariant
            i <= v@.len(),
            forall|j: int| 0 <= j < i ==> v@[j] != id,
        decreases v@.len() - i,
    {
        i = i + 1;
    }
    if i == v.len() {
        proof {
            assert forall|j: int| 0 <= j < v@.len() implies v@[j] != id by {}
        }
        return None;
    }
    proof {
        lemma_first_index(v@, id, i as int);
    }
    Some(i)
}

/// `r` after the id at position `i` of category `from` has moved to the end
/// of category `to`.
pub open spec fn moved_at(r: RunView, i: int, from: RunCategory, to: RunCategory) -> RunView {
    let taken = r.with_cat(from, r.cat(from).remove(i));
    taken.with_cat(to, taken.cat(to).push(r.cat(from)[i]))
}

/// `r` after all of category `from` has been appended to category `to`.
pub open spec fn drained_into(r: RunView, from: RunCategory, to: RunCategory) -> RunView {
    let drained = r.with_cat(from, Seq::empty());
    drained.with_cat(to, drained.cat(to) + r.cat(from))
}

/// `r` after its current card has been put back at the front of `remaining`.
pub open spec fn skipped(r: RunView) -> RunView {
    if r.remaining.len() == 0 {
        r
    } else {
        RunView { remaining: seq![r.remaining.last()] + r.remaining.drop_last(), ..r }
    }
}

proof fn lemma_bag_update(r: RunView, c: RunCategory, s: Seq<usize>, x: usize)
    ensures
        bag_of(r.with_cat(c, s)).count(x) == bag_of(r).count(x) - r.cat(c).to_multiset().count(x)
            + s.to_multiset().count(x),
{
}

proof fn lemma_cat_with(r: RunView, c: RunCategory, s: Seq<usize>)
    ensures
        r.with_cat(c, s).cat(c) == s,
        forall|d: RunCategory| d != c ==> #[trigger] r.with_cat(c, s).cat(d) == r.cat(d),
{
}

/// Ids tracked by `b` are those tracked by `a`, with the same multiplicities.
pub open spec fn same_ids(a: RunView, b: RunView) -> bool {
    a.all_ids().to_multiset() == b.all_ids().to_multiset()
}

proof fn lemma_same_bag(a: RunView, b: RunView)
    requires
        forall|x: usize| bag_of(a).count(x) == bag_of(b).count(x),
    ensures
        same_ids(a, b),
        a.partitioned() == b.partitioned(),
        a.id_set() == b.id_set(),
{
    lemma_bag_of(a);
    lemma_bag_of(b);
    assert(bag_of(a) =~= bag_of(b));
    lemma_same_ids(a, b);
}

impl PracticeRun {
    /// Moves `id` from category `source_category` to the end of
    /// `destination_category`; fails, changing nothing, where it is not in
    /// `source_category`.
    pub fn move_index(
        &mut self,
        id: usize,
        source_category: RunCategory,
        destination_category: RunCategory,
    ) -> (r: Result<(), RunActionError>)
        ensures
            r is Err <==> !old(self)@.cat(source_category).contains(id),
            r is Err ==> r == Err::<(), RunActionError>(
                RunActionError::IdNotFound(id, source_category),
            ) && final(self)@ == old(self)@,
            r is Ok ==> final(self)@ == moved_at(
                old(self)@,
                first_index(old(self)@.cat(source_category), id),
                source_category,
                destination_category,
            ),
            same_ids(old(self)@, final(self)@),
            final(self)@.partitioned() == old(self)@.partitioned(),
            final(self)@.id_set() == old(self)@.id_set(),
    {
        let ghost before = self@;
        let src = self.category_array(source_category);
        let i = match position_of(src, id) {
            Some(i) => i,
            None => {
                return Err(RunActionError::IdNotFound(id, source_category));
            },
        };
        src.remove(i);
        let dst = self.category_array(destination_category);
        dst.push(id);
        proof {
            let rest = before.cat(source_category).remove(i as int);
            let taken = before.with_cat(source_category, rest);
            lemma_cat_with(before, source_category, rest);
            assert(self@ == taken.with_cat(destination_category, taken.cat(destination_category).push(id)));
            assert forall|x: usize| bag_of(before).count(x) == bag_of(self@).count(x) by {
                lemma_bag_update(before, source_category, rest, x);
                lemma_bag_update(taken, destination_category, taken.cat(destination_category).push(id), x);
                vstd::seq_lib::to_multiset_remove(before.cat(source_category), i as int);
                vstd::seq_lib::to_multiset_build(taken.cat(destination_category), id);
                vstd::seq_lib::to_multiset_contains(before.cat(source_category), id);
                assert(before.cat(source_category).contains(id)) by {
                    assert(before.cat(source_category)[i as int] == id);
                }
                assert(rest.to_multiset().count(x) == before.cat(source_category).to_multiset().count(x)
                    - if x == id { 1int } else { 0 });
            }
            lemma_same_bag(before, self@);
        }
        Ok(())
    }

    /// Moves the last id of `source_category` to the end of
    /// `destination_category`. Where `source_category` is empty there is no
    /// id to name: it fails with `IdNotFound(0, source_category)`.
    pub fn move_last(
        &mut self,
        source_category: RunCategory,
        destination_category: RunCategory,
    ) -> (r: Result<(), RunActionError>)
        ensures
            r is Err <==> old(self)@.cat(source_category).len() == 0,
            r is Err ==> r == Err::<(), RunActionError>(
                RunActionError::IdNotFound(0, source_category),
            ) && final(self)@ == old(self)@,
            r is Ok ==> final(self)@ == moved_at(
                old(self)@,
                old(self)@.cat(source_category).len() - 1,
                source_category,
                destination_category,
            ),
            same_ids(old(self)@, final(self)@),
            final(self)@.partitioned() == old(self)@.partitioned(),
            final(self)@.id_set() == old(self)@.id_set(),
    {
        let ghost before = self@;
        let src = self.category_array(source_category);
        match src.pop() {
            None => {
                proof {
                    lemma_same_ids(before, before);
                }
                Err(RunActionError::IdNotFound(0, source_category))
            },
            Some(id) => {
                let dst = self.category_array(destination_category);
                dst.push(id);
                proof {
                    let n = before.cat(source_category).len() - 1;
                    assert(before.cat(source_category).remove(n) =~= before.cat(source_category).drop_last());
                    let rest = before.cat(source_category).remove(n);
                    let taken = before.with_cat(source_category, rest);
                    lemma_cat_with(before, source_category, rest);
                    assert(self@ == taken.with_cat(destination_category, taken.cat(destination_category).push(id)));
                    assert forall|x: usize| bag_of(before).count(x) == bag_of(self@).count(x) by {
                        lemma_bag_update(before, source_category, rest, x);
                        lemma_bag_update(taken, destination_category, taken.cat(destination_category).push(id), x);
                        vstd::seq_lib::to_multiset_remove(before.cat(source_category), n);
                        vstd::seq_lib::to_multiset_build(taken.cat(destination_category), id);
                        vstd::seq_lib::to_multiset_contains(before.cat(source_category), id);
                        assert(before.cat(source_category).contains(id)) by {
                            assert(before.cat(source_category)[n] == id);
                        }
                        assert(rest.to_multiset().count(x) == before.cat(source_category).to_multiset().count(x)
                            - if x == id { 1int } else { 0 });
                    }
                    lemma_same_bag(before, self@);
                }
                Ok(())
            },
        }
    }

    /// Appends all of `source_category`, in order, to `destination_category`
    /// and leaves `source_category` empty.
    pub fn move_category(
        &mut self,
        source_category: RunCategory,
        destination_category: RunCategory,
    )
        ensures
            final(self)@ == drained_into(old(self)@, source_category, destination_category),
            same_ids(old(self)@, final(self)@),
            final(self)@.partitioned() == old(self)@.partitioned(),
            final(self)@.id_set() == old(self)@.id_set(),
    {
        let ghost before = self@;
        let mut moved: Vec<usize> = Vec::new();
        let src = self.category_array(source_category);
        std::mem::swap(src, &mut moved);
        let dst = self.category_array(destination_category);
        dst.append(&mut moved);
        proof {
            let drained = before.with_cat(source_category, Seq::empty());
            assert forall|x: usize| bag_of(before).count(x) == bag_of(self@).count(x) by {
                lemma_bag_update(before, source_category, Seq::empty(), x);
                lemma_bag_update(drained, destination_category, drained.cat(destination_category) + before.cat(source_category), x);
                vstd::seq_lib::lemma_multiset_commutative(drained.cat(destination_category), before.cat(source_category));
                vstd::seq_lib::to_multiset_len(Seq::<usize>::empty());
            }
            lemma_same_bag(before, self@);
        }
    }

    /// Puts category `category` in a random order.
    pub fn shuffle(&mut self, category: RunCategory)
        ensures
            final(self)@ == old(self)@.with_cat(category, final(self)@.cat(category)),
            final(self)@.cat(category).to_multiset() == old(self)@.cat(category).to_multiset(),
            same_ids(old(self)@, final(self)@),
            final(self)@.partitioned() == old(self)@.partitioned(),
            final(self)@.id_set() == old(self)@.id_set(),
    {
        let ghost before = self@;
        let v = self.category_array(category);
        shuffle_vec(v);
        proof {
            assert forall|x: usize| bag_of(before).count(x) == bag_of(self@).count(x) by {
                lemma_bag_update(before, category, self@.cat(category), x);
            }
            lemma_same_bag(before, self@);
        }
    }

    /// Shuffles each of the four categories.
    pub fn shuffle_all(&mut self)
        ensures
            final(self)@.deck_path == old(self)@.deck_path,
            final(self)@.last_save == old(self)@.last_save,
            final(self)@.remaining.to_multiset() == old(self)@.remaining.to_multiset(),
            final(self)@.memorized.to_multiset() == old(self)@.memorized.to_multiset(),
            final(self)@.working.to_multiset() == old(self)@.working.to_multiset(),
            final(self)@.incorrect.to_multiset() == old(self)@.incorrect.to_multiset(),
            same_ids(old(self)@, final(self)@),
            final(self)@.partitioned() == old(self)@.partitioned(),
            final(self)@.id_set() == old(self)@.id_set(),
    {
        self.shuffle(RunCategory::Remaining);
        self.shuffle(RunCategory::Memorized);
        self.shuffle(RunCategory::Working);
        self.shuffle(RunCategory::Incorrect);
    }

    /// Defers the current card: the last id of `remaining` moves to its front.
    pub fn skip(&mut self)
        ensures
            final(self)@ == skipped(old(self)@),
            same_ids(old(self)@, final(self)@),
            final(self)@.partitioned() == old(self)@.partitioned(),
            final(self)@.id_set() == old(self)@.id_set(),
    {
        let ghost before = self@;
        if let Some(element) = self.remaining.pop() {
            self.remaining.insert(0, element);
            proof {
                let rem = before.remaining;
                assert(self@.remaining =~= seq![rem.last()] + rem.drop_last());
                assert(self@ =~= skipped(before));
                assert forall|x: usize| bag_of(before).count(x) == bag_of(self@).count(x) by {
                    lemma_bag_update(before, RunCategory::Remaining, self@.remaining, x);
                    vstd::seq_lib::to_multiset_insert(rem.drop_last(), 0, rem.last());
                    vstd::seq_lib::to_multiset_build(rem.drop_last(), rem.last());
                    assert(rem.drop_last().push(rem.last()) =~= rem);
                    assert(rem.drop_last().insert(0, rem.last()) =~= self@.remaining);
                }
                lemma_same_bag(before, self@);
            }
        } else {
            proof {
                lemma_same_ids(before, before);
            }
        }
    }

    /// Starts a new pass: every id goes back to `remaining`, in random order.
    pub fn reset(&mut self)
        ensures
            final(self)@.deck_path == old(self)@.deck_path,
            final(self)@.last_save == old(self)@.last_save,
            final(self)@.incorrect.len() == 0,
            final(self)@.working.len() == 0,
            final(self)@.memorized.len() == 0,
            final(self)@.remaining.to_multiset() == old(self)@.all_ids().to_multiset(),
            final(self)@.remaining.len() == old(self)@.all_ids().len(),
            same_ids(old(self)@, final(self)@),
            final(self)@.partitioned() == old(self)@.partitioned(),
            final(self)@.id_set() == old(self)@.id_set(),
    {
        let ghost before = self@;
        self.move_category(RunCategory::Incorrect, RunCategory::Remaining);
        self.move_category(RunCategory::Working, RunCategory::Remaining);
        self.move_category(RunCategory::Memorized, RunCategory::Remaining);
        self.shuffle(RunCategory::Remaining);
        proof {
            assert(self@.all_ids() =~= self@.remaining);
            vstd::seq_lib::to_multiset_len(self@.remaining);
            vstd::seq_lib::to_multiset_len(before.all_ids());
        }
    }
}

} // verus!
