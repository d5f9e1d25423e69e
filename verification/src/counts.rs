//! Counting word occurrences: an order-independent fold of the filtered
//! words into (word, count) entries with unique keys. An entry's count is
//! exactly the number of occurrences of its word, and entries appear in
//! first-occurrence order before the statistics step sorts them.

use vstd::prelude::*;

use crate::split::views_of;

verus! {

/// One reported word with its occurrence count.
pub struct WordCount {
    pub word: String,
    pub count: usize,
}

/// A count entry abstracted to its mathematical content.
pub open spec fn pair_of(e: WordCount) -> (Seq<char>, nat) {
    (e.word@, e.count as nat)
}

pub open spec fn pairs_of(s: Seq<WordCount>) -> Seq<(Seq<char>, nat)> {
    s.map_values(|e: WordCount| pair_of(e))
}

/// The sum of the counts of a sequence of entries.
pub open spec fn sum_counts(s: Seq<(Seq<char>, nat)>) -> nat
    decreases s.len(),
{
    if s.len() == 0 {
        0
    } else {
        sum_counts(s.drop_last()) + s.last().1
    }
}

pub proof fn lemma_sum_concat(a: Seq<(Seq<char>, nat)>, b: Seq<(Seq<char>, nat)>)
    ensures
        sum_counts(a + b) == sum_counts(a) + sum_counts(b),
    decreases b.len(),
{
    if b.len() == 0 {
        assert(a + b =~= a);
    } else {
        assert((a + b).drop_last() =~= a + b.drop_last());
        assert((a + b).last() == b.last());
        lemma_sum_concat(a, b.drop_last());
    }
}

/// Every single count is bounded by the sum of all counts.
pub proof fn lemma_sum_singleton(p: (Seq<char>, nat))
    ensures
        sum_counts(seq![p]) == p.1,
{
    assert(seq![p].drop_last() =~= Seq::<(Seq<char>, nat)>::empty());
    assert(sum_counts(Seq::<(Seq<char>, nat)>::empty()) == 0);
}

/// Every single count is bounded by the sum of all counts.
pub proof fn lemma_entry_le_sum(s: Seq<(Seq<char>, nat)>, k: int)
    requires
        0 <= k < s.len(),
    ensures
        s[k].1 <= sum_counts(s),
{
    assert(s =~= s.take(k) + seq![s[k]] + s.skip(k + 1));
    lemma_sum_concat(s.take(k) + seq![s[k]], s.skip(k + 1));
    lemma_sum_concat(s.take(k), seq![s[k]]);
    lemma_sum_singleton(s[k]);
}

/// The number of occurrences of `w` in the word sequence `ws`.
pub open spec fn count_occ(ws: Seq<Seq<char>>, w: Seq<char>) -> nat
    decreases ws.len(),
{
    if ws.len() == 0 {
        0
    } else {
        count_occ(ws.drop_last(), w) + if ws.last() == w {
            1nat
        } else {
            0nat
        }
    }
}

pub proof fn lemma_count_occ_zero(ws: Seq<Seq<char>>, w: Seq<char>)
    ensures
        (count_occ(ws, w) == 0) <==> !ws.contains(w),
    decreases ws.len(),
{
    if ws.len() > 0 {
        lemma_count_occ_zero(ws.drop_last(), w);
        lemma_contains_drop_last(ws, w);
    }
}

pub proof fn lemma_contains_drop_last<A>(ws: Seq<A>, w: A)
    requires
        ws.len() > 0,
    ensures
        ws.contains(w) <==> (ws.drop_last().contains(w) || ws.last() == w),
{
    if ws.contains(w) {
        let i = choose|i: int| 0 <= i < ws.len() && ws[i] == w;
        if i < ws.len() - 1 {
            assert(ws.drop_last()[i] == w);
            assert(ws.drop_last().contains(w));
        }
    }
    if ws.drop_last().contains(w) {
        let i = choose|i: int| 0 <= i < ws.drop_last().len() && ws.drop_last()[i] == w;
        assert(ws[i] == w);
    }
}

/// `entries` is a well-formed count table: keys are unique and every count
/// is at least one.
pub open spec fn counts_wf(entries: Seq<(Seq<char>, nat)>) -> bool {
    (forall|j: int, k: int|
        0 <= j < k < entries.len() ==> entries[j].0 != entries[k].0) && (forall|k: int|
        0 <= k < entries.len() ==> entries[k].1 >= 1)
}

pub open spec fn has_key(entries: Seq<(Seq<char>, nat)>, w: Seq<char>) -> bool {
    exists|k: int| 0 <= k < entries.len() && entries[k].0 == w
}

/// One more occurrence of `w` folded into the count table: the entry for
/// `w` is incremented, or a fresh entry with count one is appended.
pub open spec fn bump(entries: Seq<(Seq<char>, nat)>, w: Seq<char>) -> Seq<(Seq<char>, nat)>
    decreases entries.len(),
{
    if entries.len() == 0 {
        seq![(w, 1nat)]
    } else if entries.first().0 == w {
        entries.update(0, (w, (entries.first().1 + 1) as nat))
    } else {
        seq![entries.first()] + bump(entries.drop_first(), w)
    }
}

/// The count table of a word sequence, one `bump` per word.
pub open spec fn counts_of(ws: Seq<Seq<char>>) -> Seq<(Seq<char>, nat)>
    decreases ws.len(),
{
    if ws.len() == 0 {
        Seq::<(Seq<char>, nat)>::empty()
    } else {
        bump(counts_of(ws.drop_last()), ws.last())
    }
}

/// When `w` already has an entry (at the first position `k0` holding it),
/// `bump` is exactly an update of that entry.
pub proof fn lemma_bump_at(entries: Seq<(Seq<char>, nat)>, w: Seq<char>, k0: int)
    requires
        0 <= k0 < entries.len(),
        entries[k0].0 == w,
        forall|m: int| 0 <= m < k0 ==> entries[m].0 != w,
    ensures
        bump(entries, w) == entries.update(k0, (w, (entries[k0].1 + 1) as nat)),
    decreases k0,
{
    if k0 == 0 {
        assert(entries.first().0 == w);
    } else {
        assert(entries.first().0 != w);
        let rest = entries.drop_first();
        assert(forall|m: int| 0 <= m < k0 - 1 ==> rest[m].0 != w);
        lemma_bump_at(rest, w, k0 - 1);
        assert(seq![entries.first()] + rest.update(k0 - 1, (w, (entries[k0].1 + 1) as nat))
            =~= entries.update(k0, (w, (entries[k0].1 + 1) as nat)));
    }
}

/// When `w` has no entry yet, `bump` is exactly an append.
pub proof fn lemma_bump_append(entries: Seq<(Seq<char>, nat)>, w: Seq<char>)
    requires
        forall|m: int| 0 <= m < entries.len() ==> entries[m].0 != w,
    ensures
        bump(entries, w) == entries.push((w, 1nat)),
    decreases entries.len(),
{
    if entries.len() == 0 {
        assert(seq![(w, 1nat)] =~= entries.push((w, 1nat)));
    } else {
        let rest = entries.drop_first();
        assert(forall|m: int| 0 <= m < rest.len() ==> rest[m].0 != w);
        lemma_bump_append(rest, w);
        assert(seq![entries.first()] + rest.push((w, 1nat)) =~= entries.push((w, 1nat)));
    }
}

/// The count table of a word sequence is well formed, holds exactly the
/// words of the sequence, counts each one exactly, and its counts sum to
/// the length of the sequence.
pub proof fn lemma_counts_of_props(ws: Seq<Seq<char>>)
    ensures
        counts_wf(counts_of(ws)),
        forall|w: Seq<char>| #[trigger] has_key(counts_of(ws), w) <==> ws.contains(w),
        forall|k: int|
            0 <= k < counts_of(ws).len() ==> #[trigger] counts_of(ws)[k].1 == count_occ(
                ws,
                counts_of(ws)[k].0,
            ),
        sum_counts(counts_of(ws)) == ws.len(),
        counts_of(ws).len() <= ws.len(),
    decreases ws.len(),
{
    if ws.len() == 0 {
        assert(forall|w: Seq<char>| !has_key(counts_of(ws), w));
        assert(forall|w: Seq<char>| !ws.contains(w));
    } else {
        let prev = counts_of(ws.drop_last());
        let w = ws.last();
        let cur = counts_of(ws);
        lemma_counts_of_props(ws.drop_last());
        assert(forall|x: Seq<char>|
            ws.contains(x) <==> (ws.drop_last().contains(x) || x == ws.last())) by {
            assert forall|x: Seq<char>|
                ws.contains(x) <==> (ws.drop_last().contains(x) || x == ws.last()) by {
                lemma_contains_drop_last(ws, x);
            }
        }
        assert(forall|x: Seq<char>|
            count_occ(ws, x) == count_occ(ws.drop_last(), x) + if x == w {
                1nat
            } else {
                0nat
            });
        if has_key(prev, w) {
            let k0 = choose|k: int| 0 <= k < prev.len() && prev[k].0 == w;
            assert(forall|m: int| 0 <= m < k0 ==> prev[m].0 != w);
            lemma_bump_at(prev, w, k0);
            assert(cur == prev.update(k0, (w, (prev[k0].1 + 1) as nat)));
            assert(forall|w2: Seq<char>| has_key(cur, w2) <==> has_key(prev, w2)) by {
                assert forall|w2: Seq<char>| has_key(cur, w2) implies has_key(prev, w2) by {
                    let k = choose|k: int| 0 <= k < cur.len() && cur[k].0 == w2;
                    assert(prev[k].0 == cur[k].0);
                }
                assert forall|w2: Seq<char>| has_key(prev, w2) implies has_key(cur, w2) by {
                    let k = choose|k: int| 0 <= k < prev.len() && prev[k].0 == w2;
                    assert(cur[k].0 == prev[k].0);
                }
            }
            assert(prev.contains(prev[k0]));
            assert(has_key(prev, w));
            // sum: decompose around k0
            assert(prev =~= prev.take(k0) + seq![prev[k0]] + prev.skip(k0 + 1));
            assert(cur =~= prev.take(k0) + seq![cur[k0]] + prev.skip(k0 + 1));
            lemma_sum_concat(prev.take(k0) + seq![prev[k0]], prev.skip(k0 + 1));
            lemma_sum_concat(prev.take(k0), seq![prev[k0]]);
            lemma_sum_concat(prev.take(k0) + seq![cur[k0]], prev.skip(k0 + 1));
            lemma_sum_concat(prev.take(k0), seq![cur[k0]]);
            lemma_sum_singleton(prev[k0]);
            lemma_sum_singleton(cur[k0]);
        } else {
            assert(forall|m: int| 0 <= m < prev.len() ==> prev[m].0 != w);
            lemma_bump_append(prev, w);
            assert(cur == prev.push((w, 1nat)));
            lemma_count_occ_zero(ws.drop_last(), w);
            assert(forall|w2: Seq<char>| has_key(cur, w2) <==> (has_key(prev, w2) || w2 == w)) by {
                assert forall|w2: Seq<char>|
                    has_key(cur, w2) implies (has_key(prev, w2) || w2 == w) by {
                    let k = choose|k: int| 0 <= k < cur.len() && cur[k].0 == w2;
                    if k < prev.len() {
                        assert(prev[k].0 == w2);
                    }
                }
                assert forall|w2: Seq<char>|
                    (has_key(prev, w2) || w2 == w) implies has_key(cur, w2) by {
                    if has_key(prev, w2) {
                        let k = choose|k: int| 0 <= k < prev.len() && prev[k].0 == w2;
                        assert(cur[k].0 == w2);
                    } else {
                        assert(cur[prev.len() as int].0 == w);
                    }
                }
            }
            assert(cur.drop_last() =~= prev);
        }
    }
}

/// Folds a sequence of already-filtered words into a count table.
pub fn tally(words: &Vec<String>) -> (counts: Vec<WordCount>)
    ensures
        pairs_of(counts@) == counts_of(views_of(words@)),
{
    let ghost wviews = views_of(words@);
    let mut counts: Vec<WordCount> = Vec::new();
    let mut i: usize = 0;
    proof {
        assert(pairs_of(counts@) =~= counts_of(wviews.take(0)));
    }
    while i < words.len()
        invariant
            i <= words@.len(),
            wviews == views_of(words@),
            pairs_of(counts@) == counts_of(wviews.take(i as int)),
        decreases words@.len() - i,
    {
        let w = &words[i];
        let ghost prev = pairs_of(counts@);
        let ghost prefix = wviews.take(i + 1);
        proof {
            assert(prefix.drop_last() =~= wviews.take(i as int));
            assert(prefix.last() == wviews[i as int]);
            assert(wviews[i as int] == w@);
            lemma_counts_of_props(wviews.take(i as int));
        }
        let mut k: usize = 0;
        let mut found: bool = false;
        while k < counts.len() && !found
            invariant
                k <= counts@.len(),
                prev == pairs_of(counts@),
                !found ==> forall|m: int| 0 <= m < k ==> prev[m].0 != w@,
                found ==> k < counts@.len() && prev[k as int].0 == w@ && (forall|m: int|
                    0 <= m < k ==> prev[m].0 != w@),
            decreases
                    counts@.len() - k + if found {
                        0int
                    } else {
                        1int
                    },
        {
            if counts[k].word == *w {
                found = true;
            } else {
                proof {
                    assert(prev[k as int].0 == counts@[k as int].word@);
                }
                k += 1;
            }
        }
        if found {
            let c = counts[k].count;
            proof {
                lemma_entry_le_sum(prev, k as int);
                assert(sum_counts(prev) == i);
            }
            let word_clone = counts[k].word.clone();
            counts[k] = WordCount { word: word_clone, count: c + 1 };
            proof {
                lemma_bump_at(prev, w@, k as int);
                assert(pairs_of(counts@) =~= prev.update(k as int, (w@, (c + 1) as nat)));
            }
        } else {
            counts.push(WordCount { word: w.clone(), count: 1 });
            proof {
                lemma_bump_append(prev, w@);
                assert(pairs_of(counts@) =~= prev.push((w@, 1nat)));
            }
        }
        i += 1;
    }
    proof {
        assert(wviews.take(words@.len() as int) =~= wviews);
    }
    counts
}

} // verus!
