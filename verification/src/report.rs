//! The words-mode report: each retained word repeated once per occurrence,
//! in report order, suitable as a flat corpus for a word-cloud tool.

use vstd::prelude::*;

use crate::counts::WordCount;
use crate::counts::pairs_of;
use crate::split::views_of;

verus! {

/// `w` repeated `n` times.
pub open spec fn repeated(w: Seq<char>, n: nat) -> Seq<Seq<char>>
    decreases n,
{
    if n == 0 {
        Seq::<Seq<char>>::empty()
    } else {
        repeated(w, (n - 1) as nat).push(w)
    }
}

/// The entries expanded in order: each word repeated as often as it was
/// counted, repetitions adjacent.
pub open spec fn expanded(entries: Seq<(Seq<char>, nat)>) -> Seq<Seq<char>>
    decreases entries.len(),
{
    if entries.len() == 0 {
        Seq::<Seq<char>>::empty()
    } else {
        expanded(entries.drop_last()) + repeated(entries.last().0, entries.last().1)
    }
}

/// Expands the statistics entries into the words-mode list.
pub fn expand_words(entries: &Vec<WordCount>) -> (r: Vec<String>)
    ensures
        views_of(r@) == expanded(pairs_of(entries@)),
{
    let ghost pairs = pairs_of(entries@);
    let mut out: Vec<String> = Vec::new();
    let mut i: usize = 0;
    proof {
        assert(views_of(out@) =~= expanded(pairs.take(0)));
    }
    while i < entries.len()
        invariant
            i <= entries@.len(),
            pairs == pairs_of(entries@),
            views_of(out@) == expanded(pairs.take(i as int)),
        decreases entries@.len() - i,
    {
        let c = entries[i].count;
        let ghost sofar = expanded(pairs.take(i as int));
        let mut j: usize = 0;
        proof {
            assert(views_of(out@) =~= sofar + repeated(pairs[i as int].0, 0));
        }
        while j < c
            invariant
                j <= c,
                i < entries@.len(),
                pairs == pairs_of(entries@),
                c == entries@[i as int].count,
                views_of(out@) == sofar + repeated(pairs[i as int].0, j as nat),
            decreases c - j,
        {
            let w = entries[i].word.clone();
            proof {
                assert(w@ == pairs[i as int].0);
                assert(views_of(out@.push(w)) =~= views_of(out@) + seq![w@]);
                assert(sofar + repeated(pairs[i as int].0, (j + 1) as nat) =~= (sofar + repeated(
                    pairs[i as int].0,
                    j as nat,
                )) + seq![pairs[i as int].0]);
            }
            out.push(w);
            j += 1;
        }
        proof {
            let prefix = pairs.take(i + 1);
            assert(prefix.drop_last() =~= pairs.take(i as int));
            assert(prefix.last() == pairs[i as int]);
            assert(pairs[i as int].1 == c as nat);
        }
        i += 1;
    }
    proof {
        assert(pairs.take(entries@.len() as int) =~= pairs);
    }
    out
}

} // verus!
