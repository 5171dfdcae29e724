//! What the two appliers guarantee, proved from their models.
use vstd::prelude::*;

use crate::applier::{
    apply_spec, block_at, best_offset, finish_text, hunks_fold, is_best, lemma_best_unique,
    lemma_walk_err, line_step, nearer, replace_step, start_of, walk_lines, ApplyFailure, Cursor,
};
use crate::ast::{new_text, old_text, Hunk, Line, Patch};
use crate::lines::{join, lines_from, lines_of, strip_cr};

verus! {

/// The number of input lines a hunk covers.
pub open spec fn old_len(h: Hunk) -> int {
    old_text(h.lines@).len() as int
}

/// The input line just past the last of `hs`.
pub open spec fn end_of(hs: Seq<Hunk>) -> int {
    if hs.len() == 0 {
        0
    } else {
        start_of(hs.last()) + old_len(hs.last())
    }
}

/// The hunks lie in order in `ls`, none overlapping the one before, and each
/// one's old block is what `ls` holds at its declared start.
pub open spec fn fits(ls: Seq<Seq<char>>, hs: Seq<Hunk>) -> bool {
    forall|k: int|
        0 <= k < hs.len() ==> {
            &&& end_of(#[trigger] hs.take(k)) <= start_of(hs[k])
            &&& start_of(hs[k]) + old_len(hs[k]) <= ls.len()
            &&& ls.subrange(start_of(hs[k]), start_of(hs[k]) + old_len(hs[k])) == old_text(
                hs[k].lines@,
            )
        }
}

/// The lines of `ls` up to the end of the last of `hs`, with each hunk's old
/// block replaced by its new block.
pub open spec fn edited(ls: Seq<Seq<char>>, hs: Seq<Hunk>) -> Seq<Seq<char>>
    decreases hs.len(),
{
    if hs.len() == 0 {
        seq![]
    } else {
        let prev = hs.drop_last();
        edited(ls, prev) + ls.subrange(end_of(prev), start_of(hs.last())) + new_text(
            hs.last().lines@,
        )
    }
}

/// Walking hunk lines whose old block is what `ls` holds from `pos` on
/// succeeds, past that block, with the new block written.
pub proof fn lemma_walk_fits(ls: Seq<Seq<char>>, pos: int, out: Seq<Seq<char>>, hl: Seq<Line>)
    requires
        0 <= pos,
        pos + old_text(hl).len() <= ls.len(),
        ls.subrange(pos, pos + old_text(hl).len()) == old_text(hl),
    ensures
        walk_lines(ls, Ok((pos, out)), hl) == Cursor::Ok(
            (pos + old_text(hl).len(), out + new_text(hl)),
        ),
    decreases hl.len(),
{
    if hl.len() == 0 {
        assert(out + new_text(hl) =~= out);
    } else {
        let prev = hl.drop_last();
        let l = hl.last();
        let m = old_text(prev).len();
        assert(ls.subrange(pos, pos + m) =~= ls.subrange(pos, pos + old_text(hl).len()).subrange(0, m as int));
        assert(old_text(hl).subrange(0, m as int) =~= old_text(prev));
        lemma_walk_fits(ls, pos, out, prev);
        match l {
            Line::Add(t) => {
                assert((out + new_text(prev)).push(t@) =~= out + new_text(hl));
            },
            Line::Context(t) => {
                assert(ls[pos + m] == ls.subrange(pos, pos + old_text(hl).len())[m as int]);
                assert((out + new_text(prev)).push(t@) =~= out + new_text(hl));
            },
            Line::Remove(t) => {
                assert(ls[pos + m] == ls.subrange(pos, pos + old_text(hl).len())[m as int]);
            },
        }
    }
}

proof fn lemma_fold_fits(ls: Seq<Seq<char>>, hs: Seq<Hunk>)
    requires
        fits(ls, hs),
    ensures
        hunks_fold(ls, hs) == Cursor::Ok((end_of(hs), edited(ls, hs))),
    decreases hs.len(),
{
    if hs.len() > 0 {
        let prev = hs.drop_last();
        let h = hs.last();
        assert forall|k: int| 0 <= k < prev.len() implies {
            &&& end_of(#[trigger] prev.take(k)) <= start_of(prev[k])
            &&& start_of(prev[k]) + old_len(prev[k]) <= ls.len()
            &&& ls.subrange(start_of(prev[k]), start_of(prev[k]) + old_len(prev[k])) == old_text(
                prev[k].lines@,
            )
        } by {
            assert(prev.take(k) =~= hs.take(k));
            assert(prev[k] == hs[k]);
        }
        lemma_fold_fits(ls, prev);
        let k = hs.len() - 1;
        assert(hs.take(k) =~= prev);
        assert(hs[k] == h);
        let cur = end_of(prev);
        let s = start_of(h);
        lemma_walk_fits(ls, s, edited(ls, prev) + ls.subrange(cur, s), h.lines@);
    }
}

/// A patch whose hunks all fit the input, in order, applies strictly: the
/// result is the input with each hunk's old block replaced by its new block,
/// the lines around them unchanged.
pub proof fn lemma_apply_fits(p: Patch, content: Seq<char>)
    requires
        fits(lines_of(content), p.hunks@),
    ensures
        apply_spec(p, content) == Ok::<Seq<char>, ApplyFailure>(
            finish_text(
                edited(lines_of(content), p.hunks@) + lines_of(content).subrange(
                    end_of(p.hunks@),
                    lines_of(content).len() as int,
                ),
                p.end_newline,
            ),
        ),
{
    lemma_fold_fits(lines_of(content), p.hunks@);
}

/// `s` without a final line feed, if it has one.
pub open spec fn without_final_newline(s: Seq<char>) -> Seq<char> {
    if s.len() > 0 && s.last() == '\n' {
        s.drop_last()
    } else {
        s
    }
}

proof fn lemma_join_cons(a: Seq<char>, ls: Seq<Seq<char>>)
    requires
        ls.len() >= 1,
    ensures
        join(seq![a] + ls) == a + seq!['\n'] + join(ls),
    decreases ls.len(),
{
    let whole = seq![a] + ls;
    assert(whole.len() >= 2);
    assert(whole.last() == ls.last());
    if ls.len() == 1 {
        assert(whole.drop_last() =~= seq![a]);
        assert(join(seq![a]) == a);
    } else {
        assert(whole.drop_last() =~= seq![a] + ls.drop_last());
        lemma_join_cons(a, ls.drop_last());
        assert(a + seq!['\n'] + join(ls.drop_last()) + seq!['\n'] + ls.last() =~= a + seq!['\n']
            + (join(ls.drop_last()) + seq!['\n'] + ls.last()));
    }
}

proof fn lemma_lines_nonempty(s: Seq<char>, start: int, i: int)
    requires
        0 <= start <= i,
        start < s.len(),
    ensures
        lines_from(s, start, i).len() > 0,
    decreases s.len() - i,
{
    if i < s.len() && s[i] != '\n' {
        lemma_lines_nonempty(s, start, i + 1);
    }
}

proof fn lemma_join_from(s: Seq<char>, start: int, i: int)
    requires
        0 <= start <= i <= s.len(),
        forall|j: int| start <= j < i ==> s[j] != '\n',
        forall|j: int| 0 <= j < s.len() ==> s[j] != '\r',
    ensures
        join(lines_from(s, start, i)) == without_final_newline(s.subrange(start, s.len() as int)),
    decreases s.len() - i,
{
    let rest = s.subrange(start, s.len() as int);
    if i >= s.len() {
        if start < s.len() {
            assert(rest.last() == s[s.len() - 1]);
        } else {
            assert(rest =~= Seq::<char>::empty());
        }
    } else if s[i] == '\n' {
        let x = s.subrange(start, i);
        if x.len() > 0 {
            assert(x.last() == s[i - 1]);
        }
        assert(strip_cr(x) == x);
        lemma_join_from(s, i + 1, i + 1);
        let tail = s.subrange(i + 1, s.len() as int);
        if i + 1 == s.len() {
            assert(rest.drop_last() =~= x);
        } else {
            lemma_lines_nonempty(s, i + 1, i + 1);
            lemma_join_cons(x, lines_from(s, i + 1, i + 1));
            assert(rest.last() == tail.last());
            if tail.last() == '\n' {
                assert(rest.drop_last() =~= x + seq!['\n'] + tail.drop_last());
            } else {
                assert(rest =~= x + seq!['\n'] + tail);
            }
        }
    } else {
        lemma_join_from(s, start, i + 1);
    }
}

/// Splitting a text without carriage returns into lines and joining them
/// again gives the text back, less a final line feed.
pub proof fn lemma_join_lines_of(s: Seq<char>)
    requires
        forall|j: int| 0 <= j < s.len() ==> s[j] != '\r',
    ensures
        join(lines_of(s)) == without_final_newline(s),
{
    lemma_join_from(s, 0, 0);
    assert(s.subrange(0, s.len() as int) =~= s);
}

/// A patch with no hunks gives its input back, less a final line feed, with
/// one added where `end_newline` asks for it and the text is not empty.
pub proof fn lemma_apply_no_hunks(p: Patch, content: Seq<char>)
    requires
        p.hunks@.len() == 0,
        forall|j: int| 0 <= j < content.len() ==> content[j] != '\r',
    ensures
        apply_spec(p, content) == Ok::<Seq<char>, ApplyFailure>(
            if without_final_newline(content).len() > 0 && p.end_newline {
                without_final_newline(content) + seq!['\n']
            } else {
                without_final_newline(content)
            },
        ),
{
    let ls = lines_of(content);
    lemma_join_lines_of(content);
    assert(Seq::<Seq<char>>::empty() + ls.subrange(0, ls.len() as int) =~= ls);
}

proof fn lemma_walk_prefix(ls: Seq<Seq<char>>, pos: int, out: Seq<Seq<char>>, hl: Seq<Line>, j: int)
    requires
        0 <= pos,
        0 <= j < hl.len(),
        pos + old_text(hl.take(j)).len() <= ls.len(),
        ls.subrange(pos, pos + old_text(hl.take(j)).len()) == old_text(hl.take(j)),
    ensures
        walk_lines(ls, Ok((pos, out)), hl.take(j + 1)) == line_step(
            ls,
            Ok((pos + old_text(hl.take(j)).len(), out + new_text(hl.take(j)))),
            hl[j],
        ),
{
    lemma_walk_fits(ls, pos, out, hl.take(j));
    assert(hl.take(j + 1).drop_last() =~= hl.take(j));
}

/// A one-hunk patch whose declared start lies past the end of the input
/// fails with `LineOutOfBounds` on the line after the last.
pub proof fn lemma_apply_start_out_of_bounds(p: Patch, content: Seq<char>)
    requires
        p.hunks@.len() == 1,
        start_of(p.hunks@[0]) > lines_of(content).len(),
    ensures
        apply_spec(p, content) == Err::<Seq<char>, ApplyFailure>(
            ApplyFailure::LineOutOfBounds {
                line: lines_of(content).len() + 1 as int,
                total_lines: lines_of(content).len() as int,
            },
        ),
{
    assert(p.hunks@.drop_last() =~= Seq::<Hunk>::empty());
    assert(hunks_fold(lines_of(content), p.hunks@.drop_last()) == Cursor::Ok((0, seq![])));
}

/// In a one-hunk patch whose lines before the `j`-th match the input, a
/// context or removed `j`-th line that lies past the end of the input fails
/// with `LineOutOfBounds`, its 1-based number and the input's line count.
pub proof fn lemma_apply_line_out_of_bounds(p: Patch, content: Seq<char>, j: int)
    requires
        p.hunks@.len() == 1,
        0 <= j < p.hunks@[0].lines@.len(),
        p.hunks@[0].lines@[j].in_old(),
        start_of(p.hunks@[0]) + old_text(p.hunks@[0].lines@.take(j)).len() == lines_of(
            content,
        ).len(),
        lines_of(content).subrange(start_of(p.hunks@[0]), lines_of(content).len() as int)
            == old_text(p.hunks@[0].lines@.take(j)),
    ensures
        apply_spec(p, content) == Err::<Seq<char>, ApplyFailure>(
            ApplyFailure::LineOutOfBounds {
                line: lines_of(content).len() + 1 as int,
                total_lines: lines_of(content).len() as int,
            },
        ),
{
    let ls = lines_of(content);
    let h = p.hunks@[0];
    let s = start_of(h);
    assert(p.hunks@.drop_last() =~= Seq::<Hunk>::empty());
    assert(hunks_fold(lines_of(content), p.hunks@.drop_last()) == Cursor::Ok((0, seq![])));
    assert(p.hunks@.last() == h);
    let out = Seq::<Seq<char>>::empty() + ls.subrange(0, s);
    lemma_walk_prefix(ls, s, out, h.lines@, j);
    lemma_walk_err(
        ls,
        Ok((s, out)),
        h.lines@,
        j + 1,
        ApplyFailure::LineOutOfBounds { line: ls.len() + 1 as int, total_lines: ls.len() as int },
    );
}

/// In a one-hunk patch whose lines before the `j`-th match the input, a
/// context or removed `j`-th line that differs from the input fails with
/// `ContextMismatch`, its 1-based number, the expected and the actual line.
pub proof fn lemma_apply_mismatch(p: Patch, content: Seq<char>, j: int)
    requires
        p.hunks@.len() == 1,
        0 <= j < p.hunks@[0].lines@.len(),
        p.hunks@[0].lines@[j].in_old(),
        start_of(p.hunks@[0]) + old_text(p.hunks@[0].lines@.take(j)).len() < lines_of(
            content,
        ).len(),
        lines_of(content).subrange(
            start_of(p.hunks@[0]),
            start_of(p.hunks@[0]) + old_text(p.hunks@[0].lines@.take(j)).len(),
        ) == old_text(p.hunks@[0].lines@.take(j)),
        lines_of(content)[start_of(p.hunks@[0]) + old_text(p.hunks@[0].lines@.take(j)).len()]
            != p.hunks@[0].lines@[j].text(),
    ensures
        apply_spec(p, content) == Err::<Seq<char>, ApplyFailure>(
            ApplyFailure::ContextMismatch {
                line: start_of(p.hunks@[0]) + old_text(p.hunks@[0].lines@.take(j)).len() + 1,
                expected: p.hunks@[0].lines@[j].text(),
                actual: lines_of(content)[start_of(p.hunks@[0]) + old_text(
                    p.hunks@[0].lines@.take(j),
                ).len()],
            },
        ),
{
    let ls = lines_of(content);
    let h = p.hunks@[0];
    let s = start_of(h);
    let at = s + old_text(h.lines@.take(j)).len();
    assert(p.hunks@.drop_last() =~= Seq::<Hunk>::empty());
    assert(hunks_fold(lines_of(content), p.hunks@.drop_last()) == Cursor::Ok((0, seq![])));
    assert(p.hunks@.last() == h);
    let out = Seq::<Seq<char>>::empty() + ls.subrange(0, s);
    lemma_walk_prefix(ls, s, out, h.lines@, j);
    lemma_walk_err(
        ls,
        Ok((s, out)),
        h.lines@,
        j + 1,
        ApplyFailure::ContextMismatch { line: at + 1, expected: h.lines@[j].text(), actual: ls[at] },
    );
}

/// A hunk whose old block occurs at one offset only is applied there,
/// however far that lies from its declared start.
pub proof fn lemma_single_occurrence(w: Seq<Seq<char>>, h: Hunk, i: int)
    requires
        block_at(w, old_text(h.lines@), i),
        forall|j: int| block_at(w, old_text(h.lines@), j) ==> j == i,
    ensures
        replace_step(w, h) == Ok::<Seq<Seq<char>>, ApplyFailure>(
            w.subrange(0, i) + new_text(h.lines@) + w.subrange(
                i + old_text(h.lines@).len(),
                w.len() as int,
            ),
        ),
{
    lemma_best_unique(w, old_text(h.lines@), h.old_range.start as int, i);
}

proof fn lemma_best_below(w: Seq<Seq<char>>, b: Seq<Seq<char>>, t: int, k: int)
    requires
        0 <= k,
        exists|j: int| 0 <= j < k && block_at(w, b, j),
    ensures
        exists|i: int|
            0 <= i < k && block_at(w, b, i) && forall|j: int|
                0 <= j < k && #[trigger] block_at(w, b, j) ==> nearer(i, j, t),
    decreases k,
{
    let n = k - 1;
    if exists|j: int| 0 <= j < n && block_at(w, b, j) {
        lemma_best_below(w, b, t, n);
        let i = choose|i: int|
            0 <= i < n && block_at(w, b, i) && forall|j: int|
                0 <= j < n && #[trigger] block_at(w, b, j) ==> nearer(i, j, t);
        if block_at(w, b, n) && !nearer(i, n, t) {
            assert forall|j: int| 0 <= j < k && #[trigger] block_at(w, b, j) implies nearer(
                n,
                j,
                t,
            ) by {
                if j < n {
                    assert(nearer(i, j, t));
                }
            }
        } else {
            assert forall|j: int| 0 <= j < k && #[trigger] block_at(w, b, j) implies nearer(
                i,
                j,
                t,
            ) by {
                if j < n {
                    assert(nearer(i, j, t));
                }
            }
        }
    } else {
        assert forall|j: int| 0 <= j < k && #[trigger] block_at(w, b, j) implies nearer(n, j, t) by {
            if j < n {
                assert(!block_at(w, b, j));
            }
        }
    }
}

/// Where the old block occurs, the offset chosen is an occurrence at the
/// least distance from the declared start, and the lowest of those.
pub proof fn lemma_nearest_chosen(w: Seq<Seq<char>>, b: Seq<Seq<char>>, t: int, j: int)
    requires
        block_at(w, b, j),
    ensures
        best_offset(w, b, t) matches Some(i) && is_best(w, b, t, i),
{
    let k = w.len() + 1 as int;
    lemma_best_below(w, b, t, k);
    let i = choose|i: int|
        0 <= i < k && block_at(w, b, i) && forall|j: int|
            0 <= j < k && #[trigger] block_at(w, b, j) ==> nearer(i, j, t);
    assert forall|m: int| #[trigger] block_at(w, b, m) implies nearer(i, m, t) by {
        assert(m < k);
    }
    lemma_best_unique(w, b, t, i);
}

/// A hunk whose old block occurs nowhere fails with `HunkNotFound`.
pub proof fn lemma_not_found(w: Seq<Seq<char>>, h: Hunk)
    requires
        forall|j: int| !block_at(w, old_text(h.lines@), j),
    ensures
        replace_step(w, h) == Err::<Seq<Seq<char>>, ApplyFailure>(ApplyFailure::HunkNotFound),
{
}

} // verus!
