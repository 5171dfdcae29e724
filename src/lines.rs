//! Splitting text into lines and joining lines back into text.
use vstd::prelude::*;
use vstd::string::*;
use vstd::utf8::is_ascii_chars;

verus! {

/// The text of a line as `str::lines` yields it: a carriage return that
/// precedes the line feed is dropped.
pub open spec fn strip_cr(s: Seq<char>) -> Seq<char> {
    if s.len() > 0 && s.last() == '\r' {
        s.drop_last()
    } else {
        s
    }
}

/// The lines of `s` from position `i` on, where the current line began at
/// `start`. Each line feed ends a line; what follows the last line feed is a
/// line only if it is not empty.
pub open spec fn lines_from(s: Seq<char>, start: int, i: int) -> Seq<Seq<char>>
    decreases s.len() - i,
{
    if i >= s.len() {
        if start < s.len() {
            seq![s.subrange(start, s.len() as int)]
        } else {
            seq![]
        }
    } else if s[i] == '\n' {
        seq![strip_cr(s.subrange(start, i))] + lines_from(s, i + 1, i + 1)
    } else {
        lines_from(s, start, i + 1)
    }
}

/// The lines of a text: a trailing line terminator adds no empty line.
pub open spec fn lines_of(s: Seq<char>) -> Seq<Seq<char>> {
    lines_from(s, 0, 0)
}

/// The lines joined with one line feed between neighbours.
pub open spec fn join(ls: Seq<Seq<char>>) -> Seq<char>
    decreases ls.len(),
{
    if ls.len() == 0 {
        seq![]
    } else if ls.len() == 1 {
        ls[0]
    } else {
        join(ls.drop_last()) + seq!['\n'] + ls.last()
    }
}

/// What a vector of strings holds, as character sequences.
pub open spec fn view_lines(v: Seq<String>) -> Seq<Seq<char>> {
    v.map_values(|l: String| l@)
}

/// Whether character `i` of `content` is `c`; `ascii` says whether
/// `content` is ASCII, in which case the byte is read directly.
fn char_is(content: &str, ascii: bool, i: usize, c: char) -> (r: bool)
    requires
        i < content@.len(),
        ascii == is_ascii(content),
        c == '\n' || c == '\r',
    ensures
        r == (content@[i as int] == c),
{
    if ascii {
        let b = content.get_ascii(i);
        let r = b == c as u8;
        assert(r == (content@[i as int] == c)) by {
            assert(is_ascii_chars(content@));
            assert((content@[i as int] as u32) < 128);
        }
        r
    } else {
        content.get_char(i) == c
    }
}

/// Splits `content` into its lines (see `lines_of`).
pub fn split_lines(content: &str) -> (r: Vec<String>)
    ensures
        view_lines(r@) == lines_of(content@),
        r@.len() <= content@.len(),
{
    let n = content.unicode_len();
    let ascii = content.is_ascii();
    let ghost s = content@;
    let mut out: Vec<String> = Vec::new();
    let mut start: usize = 0;
    let mut i: usize = 0;
    while i < n
        invariant
            n == s.len(),
            s == content@,
            ascii == is_ascii(content),
            start <= i <= n,
            out@.len() <= start,
            view_lines(out@) + lines_from(s, start as int, i as int) == lines_of(s),
        decreases n - i,
    {
        if char_is(content, ascii, i, '\n') {
            let mut end: usize = i;
            if end > start && char_is(content, ascii, end - 1, '\r') {
                end = end - 1;
            }
            let piece = if ascii {
                content.substring_ascii(start, end)
            } else {
                content.substring_char(start, end)
            };
            proof {
                assert(piece@ == strip_cr(s.subrange(start as int, i as int)));
            }
            let ghost before = view_lines(out@);
            out.push(String::from_str(piece));
            proof {
                assert(view_lines(out@) =~= before.push(piece@));
                assert(view_lines(out@) + lines_from(s, i + 1, i + 1) =~= before + lines_from(
                    s,
                    start as int,
                    i as int,
                ));
            }
            start = i + 1;
        }
        i = i + 1;
    }
    if start < n {
        let piece = if ascii {
            content.substring_ascii(start, n)
        } else {
            content.substring_char(start, n)
        };
        let ghost before = view_lines(out@);
        out.push(String::from_str(piece));
        proof {
            assert(view_lines(out@) =~= before.push(piece@));
            assert(view_lines(out@) =~= before + lines_from(s, start as int, i as int));
        }
    } else {
        proof {
            assert(view_lines(out@) =~= view_lines(out@) + lines_from(s, start as int, i as int));
        }
    }
    out
}

/// Joins `ls` with one line feed between neighbours (see `join`).
pub fn join_lines(ls: &Vec<String>) -> (r: String)
    ensures
        r@ == join(view_lines(ls@)),
{
    let ghost v = view_lines(ls@);
    let mut r = String::new();
    let mut k: usize = 0;
    while k < ls.len()
        invariant
            v == view_lines(ls@),
            k <= ls.len(),
            r@ == join(v.take(k as int)),
        decreases ls.len() - k,
    {
        if k > 0 {
            proof {
                reveal_strlit("\n");
            }
            r.append("\n");
        }
        r.append(ls[k].as_str());
        proof {
            assert(v.take(k + 1).drop_last() =~= v.take(k as int));
        }
        k = k + 1;
    }
    proof {
        assert(v.take(k as int) =~= v);
    }
    r
}

} // verus!
