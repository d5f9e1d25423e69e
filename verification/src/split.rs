//! Splitting text into pieces on a class of characters, and trimming
//! whitespace from a line. Splitting keeps empty pieces (two adjacent
//! separators enclose an empty piece): discarding too-short pieces is the
//! word filter's job, not the tokenizer's.

use vstd::prelude::*;

use crate::chars::is_whitespace_char;
use crate::chars::is_word_boundary;
use crate::chars::whitespace_char;
use crate::chars::word_boundary;

verus! {

/// The views of a sequence of owned strings.
pub open spec fn views_of(ts: Seq<String>) -> Seq<Seq<char>> {
    ts.map_values(|t: String| t@)
}

/// The pieces of `s` delimited by the characters satisfying `p`: `n`
/// delimiter characters enclose exactly `n + 1` pieces, empty ones included.
pub open spec fn split_on(s: Seq<char>, p: spec_fn(char) -> bool) -> Seq<Seq<char>>
    decreases s.len(),
{
    if s.len() == 0 {
        seq![Seq::<char>::empty()]
    } else {
        let pre = split_on(s.drop_last(), p);
        if p(s.last()) {
            pre.push(Seq::<char>::empty())
        } else {
            pre.update(pre.len() - 1, pre.last().push(s.last()))
        }
    }
}

/// The candidate words of one file's text: its pieces between word
/// boundary characters (whitespace or separators).
pub open spec fn word_pieces(s: Seq<char>) -> Seq<Seq<char>> {
    split_on(s, |c: char| is_word_boundary(c))
}

/// The lines of one file's text: its pieces between newline characters.
pub open spec fn content_lines(s: Seq<char>) -> Seq<Seq<char>> {
    split_on(s, |c: char| c == '\n')
}

/// `s` without its leading whitespace.
pub open spec fn trim_front(s: Seq<char>) -> Seq<char>
    decreases s.len(),
{
    if s.len() > 0 && is_whitespace_char(s.first()) {
        trim_front(s.drop_first())
    } else {
        s
    }
}

/// `s` without its trailing whitespace.
pub open spec fn trim_back(s: Seq<char>) -> Seq<char>
    decreases s.len(),
{
    if s.len() > 0 && is_whitespace_char(s.last()) {
        trim_back(s.drop_last())
    } else {
        s
    }
}

/// `s` without leading and trailing whitespace.
pub open spec fn trimmed(s: Seq<char>) -> Seq<char> {
    trim_back(trim_front(s))
}

proof fn lemma_trim_front_skip(s: Seq<char>, i: int)
    requires
        0 <= i <= s.len(),
        forall|k: int| 0 <= k < i ==> is_whitespace_char(s[k]),
        i == s.len() || !is_whitespace_char(s[i]),
    ensures
        trim_front(s) == s.skip(i),
    decreases i,
{
    if i == 0 {
        assert(s.skip(0) =~= s);
    } else {
        let t = s.drop_first();
        assert(forall|k: int| 0 <= k < i - 1 ==> is_whitespace_char(t[k]));
        lemma_trim_front_skip(t, i - 1);
        assert(t.skip(i - 1) =~= s.skip(i));
    }
}

proof fn lemma_trim_back_take(s: Seq<char>, j: int)
    requires
        0 <= j <= s.len(),
        forall|k: int| j <= k < s.len() ==> is_whitespace_char(s[k]),
        j == 0 || !is_whitespace_char(s[j - 1]),
    ensures
        trim_back(s) == s.take(j),
    decreases s.len(),
{
    if j == s.len() {
        assert(s.take(j) =~= s);
    } else {
        let t = s.drop_last();
        assert(t =~= s.take(s.len() - 1));
        assert(forall|k: int| j <= k < t.len() ==> is_whitespace_char(t[k]));
        lemma_trim_back_take(t, j);
        assert(t.take(j) =~= s.take(j));
    }
}

/// The trimmed string is a prefix of the input, and neither starts nor ends
/// with whitespace.
pub proof fn lemma_trim_back_prefix(s: Seq<char>)
    ensures
        trim_back(s).len() <= s.len(),
        trim_back(s) == s.take(trim_back(s).len() as int),
        trim_back(s).len() > 0 ==> !is_whitespace_char(trim_back(s).last()),
    decreases s.len(),
{
    if s.len() > 0 && is_whitespace_char(s.last()) {
        let t = s.drop_last();
        lemma_trim_back_prefix(t);
        assert(t.take(trim_back(t).len() as int) =~= s.take(trim_back(t).len() as int));
    } else {
        assert(s.take(s.len() as int) =~= s);
    }
}

proof fn lemma_trim_front_first(s: Seq<char>)
    ensures
        trim_front(s).len() > 0 ==> !is_whitespace_char(trim_front(s).first()),
    decreases s.len(),
{
    if s.len() > 0 && is_whitespace_char(s.first()) {
        lemma_trim_front_first(s.drop_first());
    }
}

/// Trimming is idempotent: a string already trimmed is left unchanged.
pub proof fn lemma_trimmed_idempotent(s: Seq<char>)
    ensures
        trimmed(trimmed(s)) == trimmed(s),
{
    let f = trim_front(s);
    let t = trim_back(f);
    lemma_trim_front_first(s);
    lemma_trim_back_prefix(f);
    if t.len() == 0 {
        assert(trim_front(t) == t);
        assert(trim_back(t) == t);
    } else {
        assert(t.first() == f.first());
        assert(trim_front(t) == t);
        assert(trim_back(t) == t);
    }
}

/// A string of whitespace alone trims to the empty string.
pub proof fn lemma_trimmed_all_whitespace(s: Seq<char>)
    requires
        forall|k: int| 0 <= k < s.len() ==> is_whitespace_char(s[k]),
    ensures
        trimmed(s).len() == 0,
{
    lemma_trim_front_skip(s, s.len() as int);
    assert(s.skip(s.len() as int) =~= Seq::<char>::empty());
    assert(trim_back(Seq::<char>::empty()) =~= Seq::<char>::empty());
}

/// Splits one file's text into candidate words on whitespace and the fixed
/// separator characters, empty pieces included.
pub fn split_words(text: &str) -> (tokens: Vec<String>)
    ensures
        views_of(tokens@) == word_pieces(text@),
{
    let n = text.unicode_len();
    let mut tokens: Vec<String> = Vec::new();
    let mut start: usize = 0;
    let mut i: usize = 0;
    proof {
        assert(text@.take(0) =~= Seq::<char>::empty());
        assert(text@.subrange(0, 0) =~= Seq::<char>::empty());
        assert(views_of(tokens@) + seq![text@.subrange(0, 0)] =~= word_pieces(text@.take(0)));
    }
    while i < n
        invariant
            start <= i <= n,
            n == text@.len(),
            views_of(tokens@) + seq![text@.subrange(start as int, i as int)] == word_pieces(
                text@.take(i as int),
            ),
        decreases n - i,
    {
        let ghost t = text@;
        let ghost prefix = t.take(i + 1);
        proof {
            assert(prefix.drop_last() =~= t.take(i as int));
            assert(prefix.last() == t[i as int]);
        }
        let c = text.get_char(i);
        if word_boundary(c) {
            let piece = text.substring_char(start, i).to_owned();
            proof {
                let old_views = views_of(tokens@);
                assert(views_of(tokens@.push(piece)) =~= old_views.push(piece@));
                assert(word_pieces(prefix) =~= (old_views + seq![t.subrange(
                    start as int,
                    i as int,
                )]).push(Seq::<char>::empty()));
                assert(t.subrange(i + 1, i + 1) =~= Seq::<char>::empty());
                assert(old_views.push(piece@) + seq![t.subrange(i + 1, i + 1)] =~= word_pieces(
                    prefix,
                ));
            }
            tokens.push(piece);
            start = i + 1;
        } else {
            proof {
                let q = word_pieces(t.take(i as int));
                let cur = t.subrange(start as int, i as int);
                assert(q.len() == views_of(tokens@).len() + 1);
                assert(q.last() == cur);
                assert(cur.push(t[i as int]) =~= t.subrange(start as int, i + 1));
                assert(word_pieces(prefix) == q.update(
                    q.len() - 1,
                    t.subrange(start as int, i + 1),
                ));
                assert(views_of(tokens@) + seq![t.subrange(start as int, i + 1)] =~= word_pieces(
                    prefix,
                ));
            }
        }
        i += 1;
    }
    let piece = text.substring_char(start, n).to_owned();
    proof {
        assert(text@.take(n as int) =~= text@);
        assert(views_of(tokens@.push(piece)) =~= views_of(tokens@).push(piece@));
        assert(views_of(tokens@).push(piece@) =~= views_of(tokens@) + seq![text@.subrange(
            start as int,
            n as int,
        )]);
    }
    tokens.push(piece);
    tokens
}

/// Splits one file's text into its lines on newline characters.
pub fn split_lines(text: &str) -> (lines: Vec<String>)
    ensures
        views_of(lines@) == content_lines(text@),
{
    let n = text.unicode_len();
    let mut lines: Vec<String> = Vec::new();
    let mut start: usize = 0;
    let mut i: usize = 0;
    proof {
        assert(text@.take(0) =~= Seq::<char>::empty());
        assert(text@.subrange(0, 0) =~= Seq::<char>::empty());
        assert(views_of(lines@) + seq![text@.subrange(0, 0)] =~= content_lines(text@.take(0)));
    }
    while i < n
        invariant
            start <= i <= n,
            n == text@.len(),
            views_of(lines@) + seq![text@.subrange(start as int, i as int)] == content_lines(
                text@.take(i as int),
            ),
        decreases n - i,
    {
        let ghost t = text@;
        let ghost prefix = t.take(i + 1);
        proof {
            assert(prefix.drop_last() =~= t.take(i as int));
            assert(prefix.last() == t[i as int]);
        }
        let c = text.get_char(i);
        if c == '\n' {
            let piece = text.substring_char(start, i).to_owned();
            proof {
                let old_views = views_of(lines@);
                assert(views_of(lines@.push(piece)) =~= old_views.push(piece@));
                assert(content_lines(prefix) =~= (old_views + seq![t.subrange(
                    start as int,
                    i as int,
                )]).push(Seq::<char>::empty()));
                assert(t.subrange(i + 1, i + 1) =~= Seq::<char>::empty());
                assert(old_views.push(piece@) + seq![t.subrange(i + 1, i + 1)] =~= content_lines(
                    prefix,
                ));
            }
            lines.push(piece);
            start = i + 1;
        } else {
            proof {
                let q = content_lines(t.take(i as int));
                let cur = t.subrange(start as int, i as int);
                assert(q.len() == views_of(lines@).len() + 1);
                assert(q.last() == cur);
                assert(cur.push(t[i as int]) =~= t.subrange(start as int, i + 1));
                assert(content_lines(prefix) == q.update(
                    q.len() - 1,
                    t.subrange(start as int, i + 1),
                ));
                assert(views_of(lines@) + seq![t.subrange(start as int, i + 1)] =~= content_lines(
                    prefix,
                ));
            }
        }
        i += 1;
    }
    let piece = text.substring_char(start, n).to_owned();
    proof {
        assert(text@.take(n as int) =~= text@);
        assert(views_of(lines@.push(piece)) =~= views_of(lines@).push(piece@));
        assert(views_of(lines@).push(piece@) =~= views_of(lines@) + seq![text@.subrange(
            start as int,
            n as int,
        )]);
    }
    lines.push(piece);
    lines
}

/// Removes leading and trailing whitespace from one line.
pub fn trim(s: &str) -> (r: String)
    ensures
        r@ == trimmed(s@),
{
    let n = s.unicode_len();
    let mut i: usize = 0;
    while i < n && whitespace_char(s.get_char(i))
        invariant
            i <= n,
            n == s@.len(),
            forall|k: int| 0 <= k < i ==> is_whitespace_char(s@[k]),
        decreases n - i,
    {
        i += 1;
    }
    let mut j: usize = n;
    while j > i && whitespace_char(s.get_char(j - 1))
        invariant
            i <= j <= n,
            n == s@.len(),
            forall|k: int| j <= k < n ==> is_whitespace_char(s@[k]),
        decreases j,
    {
        j -= 1;
    }
    let piece = s.substring_char(i, j);
    proof {
        lemma_trim_front_skip(s@, i as int);
        let u = s@.skip(i as int);
        assert(forall|k: int| j - i <= k < u.len() ==> is_whitespace_char(u[k]));
        lemma_trim_back_take(u, j - i);
        assert(u.take(j - i) =~= s@.subrange(i as int, j as int));
    }
    piece.to_owned()
}

} // verus!
