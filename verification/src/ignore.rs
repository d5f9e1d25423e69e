//! The ignore list: the union, over zero or more ignore files, of the
//! trimmed non-empty lines of each file. Matching against it is exact and
//! case-sensitive.

use vstd::prelude::*;

use crate::chars::is_whitespace_char;
use crate::split::content_lines;
use crate::split::lemma_trimmed_all_whitespace;
use crate::split::lemma_trimmed_idempotent;
use crate::split::split_lines;
use crate::split::trim;
use crate::split::trimmed;
use crate::split::views_of;

verus! {

/// What one line of an ignore file contributes to the ignore set: its
/// trimmed text, or nothing when only whitespace is left.
pub open spec fn line_words(line: Seq<char>) -> Set<Seq<char>> {
    if trimmed(line).len() > 0 {
        Set::<Seq<char>>::empty().insert(trimmed(line))
    } else {
        Set::<Seq<char>>::empty()
    }
}

/// The union of the contributions of a sequence of lines.
pub open spec fn lines_contribution(lines: Seq<Seq<char>>) -> Set<Seq<char>>
    decreases lines.len(),
{
    if lines.len() == 0 {
        Set::<Seq<char>>::empty()
    } else {
        lines_contribution(lines.drop_last()).union(line_words(lines.last()))
    }
}

/// The ignore words contributed by one ignore file's text.
pub open spec fn ignore_set_of_content(content: Seq<char>) -> Set<Seq<char>> {
    lines_contribution(content_lines(content))
}

/// The ignore set built from the texts of zero or more ignore files.
pub open spec fn ignore_set_of(contents: Seq<Seq<char>>) -> Set<Seq<char>>
    decreases contents.len(),
{
    if contents.len() == 0 {
        Set::<Seq<char>>::empty()
    } else {
        ignore_set_of(contents.drop_last()).union(ignore_set_of_content(contents.last()))
    }
}

/// The set of words excluded from every report, abstracted by the set of
/// character sequences it holds.
pub struct IgnoreSet {
    words: Vec<String>,
}

impl View for IgnoreSet {
    type V = Set<Seq<char>>;

    closed spec fn view(&self) -> Set<Seq<char>> {
        views_of(self.words@).to_set()
    }
}

impl IgnoreSet {
    /// The empty ignore set, used when no ignore file is given.
    pub fn new() -> (r: IgnoreSet)
        ensures
            r@ == Set::<Seq<char>>::empty(),
    {
        let words: Vec<String> = Vec::new();
        proof {
            assert(views_of(words@) =~= Seq::<Seq<char>>::empty());
            assert(views_of(words@).to_set() =~= Set::<Seq<char>>::empty());
        }
        IgnoreSet { words }
    }

    /// Exact, case-sensitive membership in the ignore set.
    pub fn contains(&self, w: &String) -> (r: bool)
        ensures
            r == self@.contains(w@),
    {
        let mut i: usize = 0;
        while i < self.words.len()
            invariant
                i <= self.words@.len(),
                forall|k: int| 0 <= k < i ==> self.words@[k]@ != w@,
            decreases self.words@.len() - i,
        {
            if self.words[i] == *w {
                proof {
                    assert(views_of(self.words@)[i as int] == w@);
                    assert(views_of(self.words@).contains(w@));
                }
                return true;
            }
            i += 1;
        }
        proof {
            assert forall|k: int|
                0 <= k < views_of(self.words@).len() implies views_of(self.words@)[k] != w@ by {
                assert(self.words@[k]@ != w@);
            }
            assert(!views_of(self.words@).contains(w@));
        }
        false
    }
}

/// Builds the ignore set from the full texts of the ignore files: each
/// file is split into lines, each line is trimmed, and the non-empty
/// trimmed lines of all files are united.
pub fn read_words_to_ignore(contents: &Vec<String>) -> (r: IgnoreSet)
    ensures
        r@ == ignore_set_of(views_of(contents@)),
{
    let ghost cviews = views_of(contents@);
    let mut words: Vec<String> = Vec::new();
    let mut i: usize = 0;
    proof {
        assert(views_of(words@) =~= Seq::<Seq<char>>::empty());
        assert(views_of(words@).to_set() =~= ignore_set_of(cviews.take(0)));
    }
    while i < contents.len()
        invariant
            i <= contents@.len(),
            cviews == views_of(contents@),
            views_of(words@).to_set() == ignore_set_of(cviews.take(i as int)),
        decreases contents@.len() - i,
    {
        let lines = split_lines(contents[i].as_str());
        let ghost lviews = views_of(lines@);
        let ghost sofar = ignore_set_of(cviews.take(i as int));
        let mut j: usize = 0;
        proof {
            assert(views_of(words@).to_set() =~= sofar.union(lines_contribution(lviews.take(0))));
        }
        while j < lines.len()
            invariant
                j <= lines@.len(),
                lviews == views_of(lines@),
                views_of(words@).to_set() == sofar.union(lines_contribution(lviews.take(j as int))),
            decreases lines@.len() - j,
        {
            let t = trim(lines[j].as_str());
            let ghost lprefix = lviews.take(j + 1);
            proof {
                assert(lprefix.drop_last() =~= lviews.take(j as int));
                assert(lprefix.last() == lviews[j as int]);
                assert(t@ == trimmed(lviews[j as int]));
            }
            if t.as_str().unicode_len() > 0 {
                proof {
                    let ovs = views_of(words@);
                    assert(views_of(words@.push(t)) =~= ovs + seq![t@]);
                    Seq::<Seq<char>>::lemma_to_set_insert_commutes(ovs, t@);
                    assert(views_of(words@.push(t)).to_set() == ovs.to_set().insert(t@));
                    assert(ovs.to_set().insert(t@) =~= sofar.union(lines_contribution(lprefix)));
                }
                words.push(t);
            } else {
                proof {
                    assert(line_words(lviews[j as int]) =~= Set::<Seq<char>>::empty());
                    assert(views_of(words@).to_set() =~= sofar.union(lines_contribution(lprefix)));
                }
            }
            j += 1;
        }
        proof {
            assert(lviews.take(lines@.len() as int) =~= lviews);
            let cprefix = cviews.take(i + 1);
            assert(cprefix.drop_last() =~= cviews.take(i as int));
            assert(cprefix.last() == cviews[i as int]);
            assert(lviews == content_lines(cviews[i as int]));
            assert(views_of(words@).to_set() =~= ignore_set_of(cprefix));
        }
        i += 1;
    }
    proof {
        assert(cviews.take(contents@.len() as int) =~= cviews);
    }
    IgnoreSet { words }
}

/// Ignore-list trimming law: a line contributes exactly its trimmed text,
/// so a line with surrounding whitespace is treated identically to the
/// trimmed line, and a line consisting only of whitespace contributes
/// nothing at all.
pub proof fn lemma_ignore_line_trimming(line: Seq<char>)
    ensures
        line_words(line) == line_words(trimmed(line)),
        (forall|k: int| 0 <= k < line.len() ==> is_whitespace_char(line[k])) ==> line_words(line)
            == Set::<Seq<char>>::empty(),
{
    lemma_trimmed_idempotent(line);
    if forall|k: int| 0 <= k < line.len() ==> is_whitespace_char(line[k]) {
        lemma_trimmed_all_whitespace(line);
    }
}

} // verus!
