//! Splitting a text into its lines on the newline character.

use vstd::prelude::*;
use vstd::string::StrSliceExecFns;

verus! {

/// The lines of `s`, split on `'\n'`, in order. The separator is not part of
/// any line; a text of `k` newlines has exactly `k + 1` lines, so the empty
/// text has the single empty line.
pub open spec fn split_lines(s: Seq<char>) -> Seq<Seq<char>>
    decreases s.len(),
{
    if s.len() == 0 {
        seq![Seq::<char>::empty()]
    } else if s[0] == '\n' {
        seq![Seq::<char>::empty()] + split_lines(s.skip(1))
    } else {
        let rest = split_lines(s.skip(1));
        seq![seq![s[0]] + rest[0]] + rest.skip(1)
    }
}

pub proof fn lemma_split_lines_nonempty(s: Seq<char>)
    ensures
        split_lines(s).len() >= 1,
    decreases s.len(),
{
    if s.len() != 0 && s[0] != '\n' {
        lemma_split_lines_nonempty(s.skip(1));
    }
}

/// If the first `k` characters of `s` hold no newline, then either `s` is a
/// single line (`k` reaches the end), or the line structure of `s` is the
/// prefix up to the newline at `k` followed by the lines of the remainder.
pub proof fn lemma_split_lines_at_first_newline(s: Seq<char>, k: int)
    requires
        0 <= k <= s.len(),
        forall|j: int| 0 <= j < k ==> s[j] != '\n',
    ensures
        k == s.len() ==> split_lines(s) == seq![s],
        k < s.len() && s[k] == '\n' ==> split_lines(s) == seq![s.take(k)] + split_lines(s.skip(k + 1)),
    decreases k,
{
    if k == 0 {
        if k == s.len() {
            assert(s =~= Seq::<char>::empty());
            assert(split_lines(s) =~= seq![s]);
        } else if s[0] == '\n' {
            assert(s.take(0) =~= Seq::<char>::empty());
            assert(split_lines(s) =~= seq![s.take(0)] + split_lines(s.skip(1)));
        }
    } else {
        let t = s.skip(1);
        lemma_split_lines_at_first_newline(t, k - 1);
        lemma_split_lines_nonempty(t);
        let rest = split_lines(t);
        if k == s.len() {
            assert(rest == seq![t]);
            assert(seq![s[0]] + rest[0] =~= s);
            assert(rest.skip(1) =~= Seq::<Seq<char>>::empty());
            assert(split_lines(s) =~= seq![s]);
        } else if s[k] == '\n' {
            assert(t[k - 1] == '\n');
            assert(rest == seq![t.take(k - 1)] + split_lines(t.skip(k)));
            assert(rest[0] == t.take(k - 1));
            assert(seq![s[0]] + t.take(k - 1) =~= s.take(k));
            assert(rest.skip(1) =~= split_lines(t.skip(k)));
            assert(t.skip(k) =~= s.skip(k + 1));
            assert(split_lines(s) =~= seq![s.take(k)] + split_lines(s.skip(k + 1)));
        }
    }
}

/// The views of a list of line strings.
pub open spec fn line_views(ls: Seq<String>) -> Seq<Seq<char>> {
    ls.map_values(|l: String| l@)
}

pub proof fn lemma_line_views_push(ls: Seq<String>, l: String)
    ensures
        line_views(ls.push(l)) == line_views(ls).push(l@),
{
    assert(line_views(ls.push(l)) =~= line_views(ls).push(l@));
}

/// Split a text into its lines on `'\n'`, in order.
pub fn split_text(text: &str) -> (lines: Vec<String>)
    ensures
        line_views(lines@) == split_lines(text@),
{
    let n = text.unicode_len();
    let mut lines: Vec<String> = Vec::new();
    let mut start: usize = 0;
    let mut i: usize = 0;
    proof {
        assert(text@.skip(0) =~= text@);
        assert(line_views(lines@) =~= Seq::<Seq<char>>::empty());
        assert(Seq::<Seq<char>>::empty() + split_lines(text@) =~= split_lines(text@));
    }
    while i < n
        invariant
            n == text@.len(),
            start <= i <= n,
            forall|j: int| start <= j < i ==> text@[j] != '\n',
            split_lines(text@) == line_views(lines@) + split_lines(text@.skip(start as int)),
        decreases n - i,
    {
        let c = text.get_char(i);
        if c == '\n' {
            let line = text.substring_char(start, i).to_owned();
            proof {
                let tail = text@.skip(start as int);
                lemma_split_lines_at_first_newline(tail, i - start);
                assert(tail.take(i - start) =~= text@.subrange(start as int, i as int));
                assert(tail.skip(i - start + 1) =~= text@.skip(i + 1));
                lemma_line_views_push(lines@, line);
                assert(line_views(lines@).push(line@)
                    + split_lines(text@.skip(i + 1))
                    =~= line_views(lines@)
                    + (seq![line@] + split_lines(text@.skip(i + 1))));
            }
            lines.push(line);
            start = i + 1;
        }
        i += 1;
    }
    let last = text.substring_char(start, n).to_owned();
    proof {
        let tail = text@.skip(start as int);
        lemma_split_lines_at_first_newline(tail, n - start);
        assert(tail =~= text@.subrange(start as int, n as int));
        lemma_line_views_push(lines@, last);
        assert(line_views(lines@).push(last@)
            =~= line_views(lines@) + seq![tail]);
    }
    lines.push(last);
    lines
}

} // verus!
