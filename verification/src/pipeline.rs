//! The analysis pipeline: the candidate words of all files in file order,
//! the word filter, and the full path from file texts to the statistics
//! report.

use vstd::prelude::*;

use crate::counts::WordCount;
use crate::counts::counts_of;
use crate::counts::has_key;
use crate::counts::lemma_counts_of_props;
use crate::counts::pairs_of;
use crate::counts::sum_counts;
use crate::counts::tally;
use crate::ignore::IgnoreSet;
use crate::ignore::ignore_set_of;
use crate::ignore::read_words_to_ignore;
use crate::numeric::is_numeric;
use crate::numeric::word_is_numeric;
use crate::split::split_words;
use crate::split::views_of;
use crate::split::word_pieces;
use crate::stats::calculate_statistics;
use crate::stats::lemma_sort_ranked_props;
use crate::stats::rank_sorted;
use crate::stats::sort_ranked;
use crate::stats::spec_limit;
use crate::stats::spec_statistics;

verus! {

/// The candidate words of all files, in file order then in-file order.
pub open spec fn all_tokens(cs: Seq<Seq<char>>) -> Seq<Seq<char>>
    decreases cs.len(),
{
    if cs.len() == 0 {
        Seq::<Seq<char>>::empty()
    } else {
        all_tokens(cs.drop_last()) + word_pieces(cs.last())
    }
}

/// The word filter: a word is kept iff it is long enough, is not a pure
/// number, and is not ignored (exact, case-sensitive match).
pub open spec fn is_kept(w: Seq<char>, min_len: int, ign: Set<Seq<char>>) -> bool {
    w.len() >= min_len && !is_numeric(w) && !ign.contains(w)
}

/// The subsequence of words that pass the filter, in order.
pub open spec fn kept_of(ws: Seq<Seq<char>>, min_len: int, ign: Set<Seq<char>>) -> Seq<Seq<char>>
    decreases ws.len(),
{
    if ws.len() == 0 {
        Seq::<Seq<char>>::empty()
    } else {
        kept_of(ws.drop_last(), min_len, ign) + if is_kept(ws.last(), min_len, ign) {
            seq![ws.last()]
        } else {
            Seq::<Seq<char>>::empty()
        }
    }
}

/// Every word that passes the filter satisfies the filter's three rules.
pub proof fn lemma_kept_of_elements(ws: Seq<Seq<char>>, min_len: int, ign: Set<Seq<char>>)
    ensures
        forall|k: int|
            0 <= k < kept_of(ws, min_len, ign).len() ==> is_kept(
                #[trigger] kept_of(ws, min_len, ign)[k],
                min_len,
                ign,
            ),
    decreases ws.len(),
{
    if ws.len() > 0 {
        lemma_kept_of_elements(ws.drop_last(), min_len, ign);
        let prev = kept_of(ws.drop_last(), min_len, ign);
        let cur = kept_of(ws, min_len, ign);
        assert forall|k: int| 0 <= k < cur.len() implies is_kept(
            #[trigger] cur[k],
            min_len,
            ign,
        ) by {
            if k < prev.len() {
                assert(cur[k] == prev[k]);
            } else {
                assert(cur[k] == ws.last());
            }
        }
    }
}

/// Tests one word against the filter.
pub fn word_is_kept(w: &String, minimum_word_length: usize, ignore: &IgnoreSet) -> (r: bool)
    ensures
        r == is_kept(w@, minimum_word_length as int, ignore@),
{
    w.as_str().unicode_len() >= minimum_word_length && !word_is_numeric(w.as_str())
        && !ignore.contains(w)
}

/// The retained statistics entries for the given file texts, ignore set,
/// minimum word length and result limit.
pub open spec fn report_pairs(
    cs: Seq<Seq<char>>,
    ign: Set<Seq<char>>,
    min_len: int,
    top: Option<usize>,
) -> Seq<(Seq<char>, nat)> {
    spec_statistics(counts_of(kept_of(all_tokens(cs), min_len, ign)), top)
}

/// Filter law: every entry of the report names a word that passed the
/// filter — long enough, not a pure number, not ignored — and occurs at
/// least once.
pub proof fn lemma_report_words_kept(
    cs: Seq<Seq<char>>,
    ign: Set<Seq<char>>,
    min_len: int,
    top: Option<usize>,
)
    ensures
        forall|k: int|
            0 <= k < report_pairs(cs, ign, min_len, top).len() ==> {
                let e = #[trigger] report_pairs(cs, ign, min_len, top)[k];
                is_kept(e.0, min_len, ign) && e.1 >= 1
            },
{
    let kept = kept_of(all_tokens(cs), min_len, ign);
    let cnt = counts_of(kept);
    let sorted = sort_ranked(cnt);
    let rp = report_pairs(cs, ign, min_len, top);
    lemma_kept_of_elements(all_tokens(cs), min_len, ign);
    lemma_counts_of_props(kept);
    lemma_sort_ranked_props(cnt);
    assert forall|k: int| 0 <= k < rp.len() implies {
        let e = #[trigger] rp[k];
        is_kept(e.0, min_len, ign) && e.1 >= 1
    } by {
        let e = rp[k];
        assert(e == sorted[k]);
        assert(sorted.contains(e));
        assert(cnt.contains(e));
        let j = choose|j: int| 0 <= j < cnt.len() && cnt[j] == e;
        assert(has_key(cnt, e.0));
        assert(kept.contains(e.0));
        let m = choose|m: int| 0 <= m < kept.len() && kept[m] == e.0;
        assert(is_kept(kept[m], min_len, ign));
    }
}

/// Idempotence law: the report is a function of the file texts, the ignore
/// texts, the minimum word length and the limit alone. The contract of
/// `analyze` pins its entries to `report_pairs` and its sum to the sum of
/// those entries, so any two results it allows for identical inputs are
/// identical.
pub proof fn lemma_analyze_deterministic(
    entries1: Seq<(Seq<char>, nat)>,
    sum1: nat,
    entries2: Seq<(Seq<char>, nat)>,
    sum2: nat,
    cs: Seq<Seq<char>>,
    ign: Set<Seq<char>>,
    min_len: int,
    top: Option<usize>,
)
    requires
        entries1 == report_pairs(cs, ign, min_len, top),
        sum1 == sum_counts(entries1),
        entries2 == report_pairs(cs, ign, min_len, top),
        sum2 == sum_counts(entries2),
    ensures
        entries1 == entries2,
        sum1 == sum2,
{
}

/// Counts the filtered words of the given file texts: every candidate word
/// of every file, in order, is tested against the filter, and the kept
/// words are folded into a count table.
pub fn count_words(
    file_contents: &Vec<String>,
    minimum_word_length: usize,
    ignore: &IgnoreSet,
) -> (counts: Vec<WordCount>)
    ensures
        pairs_of(counts@) == counts_of(
            kept_of(
                all_tokens(views_of(file_contents@)),
                minimum_word_length as int,
                ignore@,
            ),
        ),
        sum_counts(pairs_of(counts@)) <= usize::MAX,
{
    let ghost cviews = views_of(file_contents@);
    let mut words: Vec<String> = Vec::new();
    let mut i: usize = 0;
    proof {
        assert(views_of(words@) =~= all_tokens(cviews.take(0)));
    }
    while i < file_contents.len()
        invariant
            i <= file_contents@.len(),
            cviews == views_of(file_contents@),
            views_of(words@) == all_tokens(cviews.take(i as int)),
        decreases file_contents@.len() - i,
    {
        let ghost wpre = words@;
        let mut toks = split_words(file_contents[i].as_str());
        let ghost tviews = views_of(toks@);
        words.append(&mut toks);
        proof {
            assert(views_of(words@) =~= views_of(wpre) + tviews);
            let prefix = cviews.take(i + 1);
            assert(prefix.drop_last() =~= cviews.take(i as int));
            assert(prefix.last() == cviews[i as int]);
            assert(tviews == word_pieces(cviews[i as int]));
        }
        i += 1;
    }
    proof {
        assert(cviews.take(file_contents@.len() as int) =~= cviews);
    }
    let ghost wviews = views_of(words@);
    let ghost ign = ignore@;
    let ghost min_len = minimum_word_length as int;
    let mut kept: Vec<String> = Vec::new();
    let mut j: usize = 0;
    proof {
        assert(views_of(kept@) =~= kept_of(wviews.take(0), min_len, ign));
    }
    while j < words.len()
        invariant
            j <= words@.len(),
            wviews == views_of(words@),
            ign == ignore@,
            min_len == minimum_word_length as int,
            views_of(kept@) == kept_of(wviews.take(j as int), min_len, ign),
        decreases words@.len() - j,
    {
        let w = &words[j];
        let ghost kpre = views_of(kept@);
        let ghost prefix = wviews.take(j + 1);
        proof {
            assert(prefix.drop_last() =~= wviews.take(j as int));
            assert(prefix.last() == wviews[j as int]);
            assert(wviews[j as int] == w@);
        }
        if word_is_kept(w, minimum_word_length, ignore) {
            kept.push(w.clone());
            proof {
                assert(views_of(kept@) =~= kpre + seq![w@]);
            }
        } else {
            proof {
                assert(kpre + Seq::<Seq<char>>::empty() =~= kpre);
            }
        }
        j += 1;
    }
    proof {
        assert(wviews.take(words@.len() as int) =~= wviews);
    }
    let nk = kept.len();
    let counts = tally(&kept);
    proof {
        lemma_counts_of_props(views_of(kept@));
        assert(views_of(kept@).len() == nk as nat);
    }
    counts
}

/// Runs the whole pipeline on the full texts of the input files and of the
/// ignore files: build the ignore set, tokenize, filter, count, sort,
/// truncate to the requested number of results, and sum the retained
/// counts. The result is a function of the inputs alone, so two runs on
/// identical inputs yield identical reports.
pub fn analyze(
    file_contents: &Vec<String>,
    ignore_contents: &Vec<String>,
    minimum_word_length: usize,
    top: Option<usize>,
) -> (r: (usize, Vec<WordCount>))
    ensures
        pairs_of(r.1@) == report_pairs(
            views_of(file_contents@),
            ignore_set_of(views_of(ignore_contents@)),
            minimum_word_length as int,
            top,
        ),
        r.0 == sum_counts(pairs_of(r.1@)),
        rank_sorted(pairs_of(r.1@)),
        r.1@.len() == spec_limit(
            top,
            counts_of(
                kept_of(
                    all_tokens(views_of(file_contents@)),
                    minimum_word_length as int,
                    ignore_set_of(views_of(ignore_contents@)),
                ),
            ).len(),
        ),
        forall|k: int|
            0 <= k < r.1@.len() ==> {
                let e = #[trigger] pairs_of(r.1@)[k];
                is_kept(
                    e.0,
                    minimum_word_length as int,
                    ignore_set_of(views_of(ignore_contents@)),
                ) && e.1 >= 1
            },
{
    let ignore = read_words_to_ignore(ignore_contents);
    let counts = count_words(file_contents, minimum_word_length, &ignore);
    let r = calculate_statistics(counts, top);
    proof {
        let ign = ignore_set_of(views_of(ignore_contents@));
        let min_len = minimum_word_length as int;
        lemma_report_words_kept(views_of(file_contents@), ign, min_len, top);
        let rp = report_pairs(views_of(file_contents@), ign, min_len, top);
        assert forall|k: int| 0 <= k < r.1@.len() implies {
            let e = #[trigger] pairs_of(r.1@)[k];
            is_kept(e.0, min_len, ign) && e.1 >= 1
        } by {
            assert(pairs_of(r.1@)[k] == rp[k]);
        }
    }
    r
}

} // verus!
