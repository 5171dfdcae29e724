//! The two ways of applying a patch: strictly at the declared line numbers,
//! and by searching for each hunk's old block nearest to where it is declared.
use vstd::prelude::*;
use vstd::string::*;

use crate::ast::{new_text, old_text, Hunk, Line, Patch};
use crate::lines::{join, join_lines, lines_of, split_lines, view_lines};

verus! {

/// Why a patch could not be applied.
#[derive(Debug, Clone, PartialEq, Eq)]
pub enum ApplyError {
    /// A line the patch needs lies past the end of the input.
    LineOutOfBounds {
        /// The 1-based number of the line that was out of bounds.
        line: u64,
        /// The number of lines in the input.
        total_lines: usize,
    },
    /// A context or removed line differs from the input.
    ContextMismatch {
        /// The 1-based number of the line where they differ.
        line: u64,
        /// The line the patch expects.
        expected: String,
        /// The line the input holds.
        actual: String,
    },
    /// A hunk's old block occurs nowhere in the text.
    HunkNotFound,
}

/// What an `ApplyError` says, over mathematical values.
pub enum ApplyFailure {
    LineOutOfBounds { line: int, total_lines: int },
    ContextMismatch { line: int, expected: Seq<char>, actual: Seq<char> },
    HunkNotFound,
}

impl View for ApplyError {
    type V = ApplyFailure;

    open spec fn view(&self) -> ApplyFailure {
        match self {
            ApplyError::LineOutOfBounds { line, total_lines } => ApplyFailure::LineOutOfBounds {
                line: *line as int,
                total_lines: *total_lines as int,
            },
            ApplyError::ContextMismatch { line, expected, actual } => ApplyFailure::ContextMismatch {
                line: *line as int,
                expected: expected@,
                actual: actual@,
            },
            ApplyError::HunkNotFound => ApplyFailure::HunkNotFound,
        }
    }
}

/// The outcome of an application, over mathematical values.
pub open spec fn outcome(r: Result<String, ApplyError>) -> Result<Seq<char>, ApplyFailure> {
    match r {
        Ok(s) => Ok(s@),
        Err(e) => Err(e@),
    }
}

/// Where the strict walk stands: the next input line to read and the output
/// so far, or the failure that ended it.
pub type Cursor = Result<(int, Seq<Seq<char>>), ApplyFailure>;

/// Checks that input line `pos` (0-based) exists and equals `t`.
pub open spec fn check_line(ls: Seq<Seq<char>>, pos: int, t: Seq<char>) -> Option<ApplyFailure> {
    if pos >= ls.len() {
        Some(ApplyFailure::LineOutOfBounds { line: pos + 1, total_lines: ls.len() as int })
    } else if ls[pos] != t {
        Some(ApplyFailure::ContextMismatch { line: pos + 1, expected: t, actual: ls[pos] })
    } else {
        None
    }
}

/// One line of a hunk, applied at the cursor: context is checked and kept,
/// an added line is written, a removed line is checked and skipped.
pub open spec fn line_step(ls: Seq<Seq<char>>, c: Cursor, l: Line) -> Cursor {
    match c {
        Err(e) => Err(e),
        Ok((pos, out)) => match l {
            Line::Add(t) => Ok((pos, out.push(t@))),
            Line::Context(t) => match check_line(ls, pos, t@) {
                Some(e) => Err(e),
                None => Ok((pos + 1, out.push(t@))),
            },
            Line::Remove(t) => match check_line(ls, pos, t@) {
                Some(e) => Err(e),
                None => Ok((pos + 1, out)),
            },
        },
    }
}

/// The lines of a hunk, applied in order from cursor `c`.
pub open spec fn walk_lines(ls: Seq<Seq<char>>, c: Cursor, hl: Seq<Line>) -> Cursor
    decreases hl.len(),
{
    if hl.len() == 0 {
        c
    } else {
        line_step(ls, walk_lines(ls, c, hl.drop_last()), hl.last())
    }
}

/// The 0-based line at which a hunk starts; a declared start of 0 counts as 1.
pub open spec fn start_of(h: Hunk) -> int {
    if h.old_range.start > 0 {
        h.old_range.start - 1
    } else {
        0
    }
}

/// One hunk, applied strictly: the input lines up to its start are copied,
/// then its lines are walked.
pub open spec fn hunk_step(ls: Seq<Seq<char>>, c: Cursor, h: Hunk) -> Cursor {
    match c {
        Err(e) => Err(e),
        Ok((cur, out)) => {
            let s = start_of(h);
            if cur < s && s > ls.len() {
                Err(ApplyFailure::LineOutOfBounds { line: ls.len() + 1 as int, total_lines: ls.len() as int })
            } else {
                let p = if cur < s { s } else { cur };
                walk_lines(ls, Ok((p, out + ls.subrange(cur, p))), h.lines@)
            }
        },
    }
}

/// The hunks, applied strictly in order from the first input line.
pub open spec fn hunks_fold(ls: Seq<Seq<char>>, hs: Seq<Hunk>) -> Cursor
    decreases hs.len(),
{
    if hs.len() == 0 {
        Ok((0, seq![]))
    } else {
        hunk_step(ls, hunks_fold(ls, hs.drop_last()), hs.last())
    }
}

/// The joined output lines, with a final line feed when asked for and the
/// text is not empty.
pub open spec fn finish_text(out: Seq<Seq<char>>, end_newline: bool) -> Seq<char> {
    if join(out).len() > 0 && end_newline {
        join(out) + seq!['\n']
    } else {
        join(out)
    }
}

/// What strict application of `p` to `content` gives.
pub open spec fn apply_spec(p: Patch, content: Seq<char>) -> Result<Seq<char>, ApplyFailure> {
    let ls = lines_of(content);
    match hunks_fold(ls, p.hunks@) {
        Err(e) => Err(e),
        Ok((cur, out)) => Ok(finish_text(out + ls.subrange(cur, ls.len() as int), p.end_newline)),
    }
}

proof fn lemma_subrange_push<T>(s: Seq<T>, a: int, b: int)
    requires
        0 <= a <= b < s.len(),
    ensures
        s.subrange(a, b + 1) == s.subrange(a, b).push(s[b]),
{
    assert(s.subrange(a, b + 1) =~= s.subrange(a, b).push(s[b]));
}

/// Once a walk fails, the lines after do not change the failure.
pub proof fn lemma_walk_err(ls: Seq<Seq<char>>, c: Cursor, hl: Seq<Line>, j: int, e: ApplyFailure)
    requires
        0 <= j <= hl.len(),
        walk_lines(ls, c, hl.take(j)) == Cursor::Err(e),
    ensures
        walk_lines(ls, c, hl) == Cursor::Err(e),
    decreases hl.len(),
{
    if hl.len() == j {
        assert(hl.take(j) =~= hl);
    } else {
        assert(hl.drop_last().take(j) =~= hl.take(j));
        lemma_walk_err(ls, c, hl.drop_last(), j, e);
    }
}

proof fn lemma_fold_err(ls: Seq<Seq<char>>, hs: Seq<Hunk>, k: int, e: ApplyFailure)
    requires
        0 <= k <= hs.len(),
        hunks_fold(ls, hs.take(k)) == Cursor::Err(e),
    ensures
        hunks_fold(ls, hs) == Cursor::Err(e),
    decreases hs.len(),
{
    if hs.len() == k {
        assert(hs.take(k) =~= hs);
    } else {
        assert(hs.drop_last().take(k) =~= hs.take(k));
        lemma_fold_err(ls, hs.drop_last(), k, e);
    }
}

/// Checks that input line `at` (0-based) exists and equals `text`.
fn check_input_line(lines: &Vec<String>, at: usize, text: &String) -> (r: Result<(), ApplyError>)
    requires
        at <= lines.len(),
        lines.len() <= isize::MAX,
    ensures
        match check_line(view_lines(lines@), at as int, text@) {
            Some(f) => r matches Err(e) && e@ == f,
            None => r is Ok,
        },
{
    if at >= lines.len() {
        return Err(ApplyError::LineOutOfBounds { line: at as u64 + 1, total_lines: lines.len() });
    }
    if !lines[at].eq(text) {
        return Err(
            ApplyError::ContextMismatch {
                line: at as u64 + 1,
                expected: text.clone(),
                actual: lines[at].clone(),
            },
        );
    }
    Ok(())
}

/// Walks the lines of one hunk from input line `pos`, appending its output
/// to `result`.
fn walk_hunk(
    lines: &Vec<String>,
    hl: &Vec<Line>,
    pos: usize,
    result: &mut Vec<String>,
) -> (r: Result<usize, ApplyError>)
    requires
        pos <= lines.len(),
        lines.len() <= isize::MAX,
    ensures
        match r {
            Ok(p) => p <= lines.len() && walk_lines(
                view_lines(lines@),
                Ok((pos as int, view_lines(old(result)@))),
                hl@,
            ) == Cursor::Ok((p as int, view_lines(final(result)@))),
            Err(e) => walk_lines(view_lines(lines@), Ok((pos as int, view_lines(old(result)@))), hl@)
                == Cursor::Err(e@),
        },
{
    let ghost ls = view_lines(lines@);
    let ghost c0 = Cursor::Ok((pos as int, view_lines(result@)));
    let n = lines.len();
    let mut at = pos;
    let mut j: usize = 0;
    while j < hl.len()
        invariant
            ls == view_lines(lines@),
            c0 == Cursor::Ok((pos as int, view_lines(old(result)@))),
            n == lines.len(),
            n <= isize::MAX,
            at <= n,
            j <= hl.len(),
            walk_lines(ls, c0, hl@.take(j as int)) == Cursor::Ok((at as int, view_lines(result@))),
        decreases hl.len() - j,
    {
        proof {
            assert(hl@.take(j + 1).drop_last() =~= hl@.take(j as int));
        }
        let ghost before = view_lines(result@);
        match &hl[j] {
            Line::Add(text) => {
                result.push(text.clone());
                proof {
                    assert(view_lines(result@) =~= before.push(text@));
                }
            },
            Line::Context(text) => {
                if let Err(e) = check_input_line(lines, at, text) {
                    proof {
                        lemma_walk_err(ls, c0, hl@, j + 1, e@);
                    }
                    return Err(e);
                }
                result.push(text.clone());
                proof {
                    assert(view_lines(result@) =~= before.push(text@));
                }
                at = at + 1;
            },
            Line::Remove(text) => {
                if let Err(e) = check_input_line(lines, at, text) {
                    proof {
                        lemma_walk_err(ls, c0, hl@, j + 1, e@);
                    }
                    return Err(e);
                }
                at = at + 1;
            },
        }
        j = j + 1;
    }
    proof {
        assert(hl@.take(j as int) =~= hl@);
    }
    Ok(at)
}

/// Applies `patch` to `content` at the line numbers its hunks declare.
///
/// Lines before, between and after the hunks are copied; each context or
/// removed line must equal the input line at its position. The first line
/// that lies past the end of the input gives `LineOutOfBounds`, the first
/// that differs gives `ContextMismatch`.
///
/// A `str` never holds more than `isize::MAX` bytes, so the bound on its
/// length holds of every input; it keeps the 1-based line numbers in range.
pub fn apply(patch: &Patch, content: &str) -> (r: Result<String, ApplyError>)
    requires
        content@.len() <= isize::MAX,
    ensures
        outcome(r) == apply_spec(*patch, content@),
{
    let lines = split_lines(content);
    let ghost ls = lines_of(content@);
    let ghost hs = patch.hunks@;
    let n = lines.len();
    let mut result: Vec<String> = Vec::new();
    let mut current_line: usize = 0;
    let mut k: usize = 0;
    proof {
        assert(hs.take(0) =~= Seq::<Hunk>::empty());
        assert(view_lines(result@) =~= Seq::<Seq<char>>::empty());
    }
    while k < patch.hunks.len()
        invariant
            ls == view_lines(lines@),
            ls == lines_of(content@),
            hs == patch.hunks@,
            n == lines.len(),
            n <= isize::MAX,
            k <= hs.len(),
            current_line <= n,
            hunks_fold(ls, hs.take(k as int)) == Cursor::Ok((current_line as int, view_lines(result@))),
        decreases hs.len() - k,
    {
        let hunk = &patch.hunks[k];
        proof {
            assert(hs.take(k + 1).drop_last() =~= hs.take(k as int));
        }
        let start: u64 = if hunk.old_range.start > 0 {
            hunk.old_range.start - 1
        } else {
            0
        };
        if (current_line as u64) < start && start > n as u64 {
            let e = ApplyError::LineOutOfBounds { line: n as u64 + 1, total_lines: n };
            proof {
                lemma_fold_err(ls, hs, k + 1, e@);
            }
            return Err(e);
        }
        let ghost cur0 = current_line as int;
        let ghost out0 = view_lines(result@);
        while (current_line as u64) < start
            invariant
                ls == view_lines(lines@),
                n == lines.len(),
                0 <= cur0 <= current_line <= n,
                cur0 < start ==> current_line <= start,
                cur0 < start ==> start <= n,
                cur0 >= start ==> current_line == cur0,
                view_lines(result@) == out0 + ls.subrange(cur0, current_line as int),
            decreases start - current_line,
        {
            let ghost before = view_lines(result@);
            assert(ls.len() == n);
            result.push(lines[current_line].clone());
            proof {
                assert(view_lines(result@) =~= before.push(ls[current_line as int]));
                lemma_subrange_push(ls, cur0, current_line as int);
            }
            current_line = current_line + 1;
        }
        match walk_hunk(&lines, &hunk.lines, current_line, &mut result) {
            Ok(p) => {
                current_line = p;
            },
            Err(e) => {
                proof {
                    lemma_fold_err(ls, hs, k + 1, e@);
                }
                return Err(e);
            },
        }
        k = k + 1;
    }
    proof {
        assert(hs.take(k as int) =~= hs);
    }
    let ghost cur0 = current_line as int;
    let ghost out0 = view_lines(result@);
    while current_line < n
        invariant
            ls == view_lines(lines@),
            ls == lines_of(content@),
            hunks_fold(ls, patch.hunks@) == Cursor::Ok((cur0, out0)),
            n == lines.len(),
            0 <= cur0 <= current_line <= n,
            view_lines(result@) == out0 + ls.subrange(cur0, current_line as int),
        decreases n - current_line,
    {
        let ghost before = view_lines(result@);
        assert(ls.len() == n);
        result.push(lines[current_line].clone());
        proof {
            assert(view_lines(result@) =~= before.push(ls[current_line as int]));
            lemma_subrange_push(ls, cur0, current_line as int);
        }
        current_line = current_line + 1;
    }
    assert(ls.len() == n);
    let mut output = join_lines(&result);
    proof {
        reveal_strlit("\n");
    }
    let ghost full = view_lines(result@);
    assert(full == out0 + ls.subrange(cur0, ls.len() as int));
    assert(output@ == join(full));
    assert("\n"@ == seq!['\n']);
    if !output.as_str().is_empty() && patch.end_newline {
        output.append("\n");
        assert(output@ == join(full) + seq!['\n']);
    }
    assert(output@ == finish_text(full, patch.end_newline));
    Ok(output)
}

/// Whether `b` occurs in `w` at offset `i`.
pub open spec fn block_at(w: Seq<Seq<char>>, b: Seq<Seq<char>>, i: int) -> bool {
    0 <= i && i + b.len() <= w.len() && w.subrange(i, i + b.len()) == b
}

/// How far offset `i` lies from `t`.
pub open spec fn distance(i: int, t: int) -> int {
    if i >= t {
        i - t
    } else {
        t - i
    }
}

/// Offset `i` is nearer to `t` than `j`, or as near and not after it.
pub open spec fn nearer(i: int, j: int, t: int) -> bool {
    distance(i, t) < distance(j, t) || (distance(i, t) == distance(j, t) && i <= j)
}

/// `i` is the occurrence of `b` in `w` nearest to `t`, the earliest on a tie.
pub open spec fn is_best(w: Seq<Seq<char>>, b: Seq<Seq<char>>, t: int, i: int) -> bool {
    block_at(w, b, i) && forall|j: int| #[trigger] block_at(w, b, j) ==> nearer(i, j, t)
}

/// The occurrence of `b` in `w` nearest to `t`, if `b` occurs at all.
pub open spec fn best_offset(w: Seq<Seq<char>>, b: Seq<Seq<char>>, t: int) -> Option<int> {
    if exists|i: int| block_at(w, b, i) {
        Some(choose|i: int| is_best(w, b, t, i))
    } else {
        None
    }
}

/// One hunk, applied by search: its old block, where it occurs nearest to
/// the declared start, is replaced by its new block.
pub open spec fn replace_step(w: Seq<Seq<char>>, h: Hunk) -> Result<Seq<Seq<char>>, ApplyFailure> {
    let b = old_text(h.lines@);
    match best_offset(w, b, h.old_range.start as int) {
        None => Err(ApplyFailure::HunkNotFound),
        Some(i) => Ok(w.subrange(0, i) + new_text(h.lines@) + w.subrange(i + b.len(), w.len() as int)),
    }
}

/// The hunks, applied by search in order, each to the text the previous left.
pub open spec fn replace_fold(w: Seq<Seq<char>>, hs: Seq<Hunk>) -> Result<Seq<Seq<char>>, ApplyFailure>
    decreases hs.len(),
{
    if hs.len() == 0 {
        Ok(w)
    } else {
        match replace_fold(w, hs.drop_last()) {
            Err(e) => Err(e),
            Ok(v) => replace_step(v, hs.last()),
        }
    }
}

/// What application of `p` to `content` by search gives.
pub open spec fn find_replace_spec(p: Patch, content: Seq<char>) -> Result<Seq<char>, ApplyFailure> {
    match replace_fold(lines_of(content), p.hunks@) {
        Err(e) => Err(e),
        Ok(v) => Ok(join(v)),
    }
}

/// There is at most one nearest occurrence.
pub proof fn lemma_best_unique(w: Seq<Seq<char>>, b: Seq<Seq<char>>, t: int, i: int)
    requires
        is_best(w, b, t, i),
    ensures
        best_offset(w, b, t) == Some(i),
{
    assert(block_at(w, b, i));
    let c = choose|c: int| is_best(w, b, t, c);
    assert(is_best(w, b, t, c));
    assert(nearer(i, c, t) && nearer(c, i, t));
}

proof fn lemma_replace_err(w: Seq<Seq<char>>, hs: Seq<Hunk>, k: int)
    requires
        0 <= k <= hs.len(),
        replace_fold(w, hs.take(k)) is Err,
    ensures
        replace_fold(w, hs) == replace_fold(w, hs.take(k)),
    decreases hs.len(),
{
    if hs.len() == k {
        assert(hs.take(k) =~= hs);
    } else {
        assert(hs.drop_last().take(k) =~= hs.take(k));
        lemma_replace_err(w, hs.drop_last(), k);
    }
}

/// The old block of a hunk's lines.
fn collect_old(hl: &Vec<Line>) -> (r: Vec<String>)
    ensures
        view_lines(r@) == old_text(hl@),
{
    let mut r: Vec<String> = Vec::new();
    let mut j: usize = 0;
    while j < hl.len()
        invariant
            j <= hl.len(),
            view_lines(r@) == old_text(hl@.take(j as int)),
        decreases hl.len() - j,
    {
        proof {
            assert(hl@.take(j + 1).drop_last() =~= hl@.take(j as int));
        }
        let ghost before = view_lines(r@);
        match &hl[j] {
            Line::Context(t) | Line::Remove(t) => {
                r.push(t.clone());
                proof {
                    assert(view_lines(r@) =~= before.push(t@));
                }
            },
            Line::Add(_) => {},
        }
        j = j + 1;
    }
    proof {
        assert(hl@.take(j as int) =~= hl@);
    }
    r
}

/// The new block of a hunk's lines.
fn collect_new(hl: &Vec<Line>) -> (r: Vec<String>)
    ensures
        view_lines(r@) == new_text(hl@),
{
    let mut r: Vec<String> = Vec::new();
    let mut j: usize = 0;
    while j < hl.len()
        invariant
            j <= hl.len(),
            view_lines(r@) == new_text(hl@.take(j as int)),
        decreases hl.len() - j,
    {
        proof {
            assert(hl@.take(j + 1).drop_last() =~= hl@.take(j as int));
        }
        let ghost before = view_lines(r@);
        match &hl[j] {
            Line::Context(t) | Line::Add(t) => {
                r.push(t.clone());
                proof {
                    assert(view_lines(r@) =~= before.push(t@));
                }
            },
            Line::Remove(_) => {},
        }
        j = j + 1;
    }
    proof {
        assert(hl@.take(j as int) =~= hl@);
    }
    r
}

/// Whether `b` occurs in `w` at offset `i`.
fn block_matches(w: &Vec<String>, b: &Vec<String>, i: usize) -> (r: bool)
    requires
        i + b.len() <= w.len(),
    ensures
        r == block_at(view_lines(w@), view_lines(b@), i as int),
{
    let ghost vw = view_lines(w@);
    let ghost vb = view_lines(b@);
    let mut k: usize = 0;
    while k < b.len()
        invariant
            vw == view_lines(w@),
            vb == view_lines(b@),
            i + b.len() <= w.len(),
            k <= b.len(),
            forall|m: int| 0 <= m < k ==> vw[i + m] == vb[m],
        decreases b.len() - k,
    {
        if !w[i + k].eq(&b[k]) {
            assert(vw.subrange(i as int, i + b.len())[k as int] != vb[k as int]);
            return false;
        }
        k = k + 1;
    }
    assert(vw.subrange(i as int, i + b.len()) =~= vb);
    true
}

/// The occurrence of `b` in `w` nearest to `target`, the earliest on a tie.
fn find_nearest(w: &Vec<String>, b: &Vec<String>, target: u64) -> (r: Option<usize>)
    ensures
        best_offset(view_lines(w@), view_lines(b@), target as int) == match r {
            Some(i) => Some(i as int),
            None => None::<int>,
        },
        r matches Some(i) ==> is_best(view_lines(w@), view_lines(b@), target as int, i as int),
{
    let ghost vw = view_lines(w@);
    let ghost vb = view_lines(b@);
    let ghost t = target as int;
    if b.len() > w.len() {
        assert forall|j: int| !block_at(vw, vb, j) by {}
        return None;
    }
    let last = w.len() - b.len();
    let mut best: Option<usize> = None;
    let mut best_distance: u64 = 0;
    let mut i: usize = 0;
    loop
        invariant_except_break
            match best {
                None => forall|j: int| 0 <= j < i ==> !block_at(vw, vb, j),
                Some(x) => x < i && block_at(vw, vb, x as int) && best_distance == distance(x as int, t)
                    && forall|j: int| 0 <= j < i && #[trigger] block_at(vw, vb, j) ==> nearer(x as int, j, t),
            },
        invariant
            vw == view_lines(w@),
            vb == view_lines(b@),
            t == target as int,
            last + b.len() == w.len(),
            i <= last,
        ensures
            match best {
                None => forall|j: int| 0 <= j <= last ==> !block_at(vw, vb, j),
                Some(x) => x <= last && block_at(vw, vb, x as int) && forall|j: int|
                    0 <= j <= last && #[trigger] block_at(vw, vb, j) ==> nearer(x as int, j, t),
            },
        decreases last - i,
    {
        if block_matches(w, b, i) {
            let d: u64 = if i as u64 >= target {
                i as u64 - target
            } else {
                target - i as u64
            };
            if best.is_none() || d < best_distance {
                best = Some(i);
                best_distance = d;
            }
        }
        if i == last {
            break;
        }
        i = i + 1;
    }
    match best {
        Some(x) => {
            assert forall|j: int| #[trigger] block_at(vw, vb, j) implies nearer(x as int, j, t) by {
                assert(j <= last);
            }
            proof {
                lemma_best_unique(vw, vb, t, x as int);
            }
        },
        None => {
            assert forall|j: int| !block_at(vw, vb, j) by {
                if 0 <= j <= last {
                } 
            }
        },
    }
    best
}

/// `w` with `drop` lines at `at` replaced by `ins`.
fn splice(w: &Vec<String>, at: usize, drop: usize, ins: &Vec<String>) -> (r: Vec<String>)
    requires
        at + drop <= w.len(),
    ensures
        view_lines(r@) == view_lines(w@).subrange(0, at as int) + view_lines(ins@) + view_lines(
            w@,
        ).subrange(at + drop, w.len() as int),
{
    let ghost vw = view_lines(w@);
    let ghost vi = view_lines(ins@);
    let mut r: Vec<String> = Vec::new();
    let mut k: usize = 0;
    while k < at
        invariant
            vw == view_lines(w@),
            at + drop <= w.len(),
            k <= at,
            view_lines(r@) == vw.subrange(0, k as int),
        decreases at - k,
    {
        let ghost before = view_lines(r@);
        r.push(w[k].clone());
        proof {
            assert(view_lines(r@) =~= before.push(vw[k as int]));
            assert(view_lines(r@) =~= vw.subrange(0, k + 1));
        }
        k = k + 1;
    }
    let ghost front = view_lines(r@);
    k = 0;
    while k < ins.len()
        invariant
            vi == view_lines(ins@),
            vw == view_lines(w@),
            at + drop <= w.len(),
            front == vw.subrange(0, at as int),
            k <= ins.len(),
            view_lines(r@) == front + vi.subrange(0, k as int),
        decreases ins.len() - k,
    {
        let ghost before = view_lines(r@);
        r.push(ins[k].clone());
        proof {
            assert(view_lines(r@) =~= before.push(vi[k as int]));
            assert(view_lines(r@) =~= front + vi.subrange(0, k + 1));
        }
        k = k + 1;
    }
    let ghost middle = view_lines(r@);
    proof {
        assert(vi.subrange(0, k as int) =~= vi);
    }
    k = at + drop;
    while k < w.len()
        invariant
            vw == view_lines(w@),
            middle == vw.subrange(0, at as int) + vi,
            at + drop <= k <= w.len(),
            view_lines(r@) == middle + vw.subrange(at + drop, k as int),
        decreases w.len() - k,
    {
        let ghost before = view_lines(r@);
        r.push(w[k].clone());
        proof {
            assert(view_lines(r@) =~= before.push(vw[k as int]));
            assert(view_lines(r@) =~= middle + vw.subrange(at + drop, k + 1));
        }
        k = k + 1;
    }
    r
}

/// Applies `patch` to `content` by searching for each hunk's old block.
///
/// The hunks are applied in order, each to the text the previous ones left.
/// A hunk's old block (its context and removed lines) is looked for at every
/// offset; the occurrence nearest to the hunk's declared start, the earliest
/// on a tie, is replaced by its new block (its context and added lines). A
/// hunk whose old block occurs nowhere gives `HunkNotFound`. The lines are
/// joined with line feeds, with no line feed after the last.
pub fn find_replace_apply(patch: &Patch, content: &str) -> (r: Result<String, ApplyError>)
    ensures
        outcome(r) == find_replace_spec(*patch, content@),
{
    let mut work = split_lines(content);
    let ghost w0 = lines_of(content@);
    let ghost hs = patch.hunks@;
    let mut k: usize = 0;
    proof {
        assert(hs.take(0) =~= Seq::<Hunk>::empty());
    }
    while k < patch.hunks.len()
        invariant
            w0 == lines_of(content@),
            hs == patch.hunks@,
            k <= hs.len(),
            replace_fold(w0, hs.take(k as int)) == Ok::<Seq<Seq<char>>, ApplyFailure>(view_lines(work@)),
        decreases hs.len() - k,
    {
        let hunk = &patch.hunks[k];
        proof {
            assert(hs.take(k + 1).drop_last() =~= hs.take(k as int));
        }
        let old_lines = collect_old(&hunk.lines);
        let new_lines = collect_new(&hunk.lines);
        match find_nearest(&work, &old_lines, hunk.old_range.start) {
            Some(at) => {
                work = splice(&work, at, old_lines.len(), &new_lines);
            },
            None => {
                proof {
                    lemma_replace_err(w0, hs, k + 1);
                }
                return Err(ApplyError::HunkNotFound);
            },
        }
        k = k + 1;
    }
    proof {
        assert(hs.take(k as int) =~= hs);
    }
    Ok(join_lines(&work))
}

} // verus!
