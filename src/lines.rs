//! Splitting a file's text into lines and joining lines into a file's text.
use vstd::prelude::*;

use vstd::string::StringExecFns;

verus! {

/// The text of each line.
pub open spec fn lines_view(lines: Seq<String>) -> Seq<Seq<char>> {
    Seq::new(lines.len(), |i: int| lines[i]@)
}

/// The stretches of `s` between line feeds: one more than there are line
/// feeds.
pub open spec fn pieces(s: Seq<char>) -> Seq<Seq<char>>
    decreases s.len(),
{
    if s.len() == 0 {
        seq![Seq::empty()]
    } else {
        let p = pieces(s.drop_last());
        if s.last() == '\n' {
            p.push(Seq::empty())
        } else {
            p.update(p.len() - 1, p.last().push(s.last()))
        }
    }
}

/// A line without the carriage return that ends it, if any.
pub open spec fn strip_cr(l: Seq<char>) -> Seq<char> {
    if l.len() > 0 && l.last() == '\r' {
        l.drop_last()
    } else {
        l
    }
}

/// The lines of a text as `str::lines` gives them: each line that a line
/// feed ends loses that line feed and a carriage return before it; a last
/// line without a line feed counts where it is not empty.
pub open spec fn split_lines(s: Seq<char>) -> Seq<Seq<char>> {
    let p = pieces(s);
    let ended = Seq::new((p.len() - 1) as nat, |i: int| strip_cr(p[i]));
    if p.last().len() == 0 {
        ended
    } else {
        ended.push(p.last())
    }
}

/// The text of a file whose lines are `ls`: each line followed by a line
/// feed.
pub open spec fn joined(ls: Seq<Seq<char>>) -> Seq<char>
    decreases ls.len(),
{
    if ls.len() == 0 {
        Seq::empty()
    } else {
        joined(ls.drop_last()) + ls.last() + seq!['\n']
    }
}

/// A line that a file can hold and give back as it was.
pub open spec fn storable(l: Seq<char>) -> bool {
    !l.contains('\n') && !(l.len() > 0 && l.last() == '\r')
}

/// Relies on std's `str::lines`: lines end at `\n` or `\r\n`, the
/// terminator is dropped, and a final line ending is optional.
#[verifier::external_body]
pub(crate) fn text_lines(s: &str) -> (r: Vec<String>)
    ensures
        lines_view(r@) == split_lines(s@),
{
    s.lines().map(String::from).collect()
}

/// The text of a file whose lines are `lines`.
pub fn join_lines(lines: &[String]) -> (r: String)
    ensures
        r@ == joined(lines_view(lines@)),
{
    let mut text = String::new();
    let mut i: usize = 0;
    while i < lines.len()
        invariant
            i <= lines@.len(),
            text@ == joined(lines_view(lines@).subrange(0, i as int)),
        decreases lines@.len() - i,
    {
        proof {
            let next = lines_view(lines@).subrange(0, i + 1);
            assert(next.drop_last() =~= lines_view(lines@).subrange(0, i as int));
        }
        text.append(lines[i].as_str());
        text.append("\n");
        proof {
            reveal_strlit("\n");
        }
        i = i + 1;
    }
    proof {
        assert(lines_view(lines@).subrange(0, i as int) =~= lines_view(lines@));
    }
    text
}

proof fn lemma_pieces_append(s: Seq<char>, l: Seq<char>)
    requires
        !l.contains('\n'),
    ensures
        pieces(s + l) == pieces(s).update(pieces(s).len() - 1, pieces(s).last() + l),
    decreases l.len(),
{
    lemma_pieces_len(s);
    if l.len() == 0 {
        assert(s + l =~= s);
        assert(pieces(s).last() + l =~= pieces(s).last());
        assert(pieces(s).update(pieces(s).len() - 1, pieces(s).last()) =~= pieces(s));
    } else {
        let k = l.drop_last();
        assert(!k.contains('\n')) by {
            if k.contains('\n') {
                let i = choose|i: int| 0 <= i < k.len() && k[i] == '\n';
                assert(l[i] == '\n');
            }
        }
        lemma_pieces_append(s, k);
        assert((s + l).drop_last() =~= s + k);
        assert((s + l).last() == l.last());
        assert(l[l.len() - 1] != '\n');
        lemma_pieces_len(s + k);
        let p = pieces(s);
        assert(pieces(s + l) =~= p.update(p.len() - 1, p.last() + l)) by {
            assert(p.last() + k + seq![l.last()] =~= p.last() + l);
            assert((p.last() + k).push(l.last()) =~= p.last() + l);
        }
    }
}

proof fn lemma_pieces_len(s: Seq<char>)
    ensures
        pieces(s).len() >= 1,
    decreases s.len(),
{
    if s.len() > 0 {
        lemma_pieces_len(s.drop_last());
    }
}

proof fn lemma_pieces_joined(ls: Seq<Seq<char>>)
    requires
        forall|i: int| 0 <= i < ls.len() ==> !(#[trigger] ls[i]).contains('\n'),
    ensures
        pieces(joined(ls)) == ls.push(Seq::empty()),
    decreases ls.len(),
{
    if ls.len() == 0 {
        assert(pieces(Seq::<char>::empty()) =~= seq![Seq::<char>::empty()]);
    } else {
        let front = ls.drop_last();
        let l = ls.last();
        assert(!l.contains('\n')) by {
            assert(ls[ls.len() - 1] == l);
        }
        assert forall|i: int| 0 <= i < front.len() implies !(#[trigger] front[i]).contains('\n') by {
            assert(front[i] == ls[i]);
        }
        lemma_pieces_joined(front);
        lemma_pieces_append(joined(front), l);
        let s = joined(front) + l;
        let t = joined(ls);
        assert(t.drop_last() =~= s);
        assert(t.last() == '\n');
        assert(front.push(Seq::empty()).last() + l =~= l);
        assert(front.push(Seq::empty()).update(front.len() as int, l) =~= ls);
        assert(pieces(t) =~= ls.push(Seq::empty()));
    }
}

/// Lines that a file can hold come back from it unchanged: splitting the
/// joined text gives the lines again.
pub proof fn lemma_split_joined(ls: Seq<Seq<char>>)
    requires
        forall|i: int| 0 <= i < ls.len() ==> storable(#[trigger] ls[i]),
    ensures
        split_lines(joined(ls)) == ls,
{
    assert forall|i: int| 0 <= i < ls.len() implies !(#[trigger] ls[i]).contains('\n') by {
        assert(storable(ls[i]));
    }
    lemma_pieces_joined(ls);
    let p = pieces(joined(ls));
    assert(p.last() == Seq::<char>::empty());
    assert(split_lines(joined(ls)) =~= ls) by {
        assert forall|i: int| 0 <= i < ls.len() implies strip_cr(p[i]) == ls[i] by {
            assert(p[i] == ls[i]);
            assert(storable(ls[i]));
        }
    }
}

} // verus!
