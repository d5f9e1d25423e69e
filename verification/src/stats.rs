//! The statistics step: count entries are sorted descending by count, with
//! ties broken lexicographically ascending by word (a deliberate,
//! deterministic strengthening of an otherwise unspecified tie-break),
//! truncated to a requested top-N, and the retained counts are summed.
//!
//! Each entry's frequency percentage is its count divided by the retained
//! sum, times one hundred; being floating point, that division belongs to
//! the presentation layer, which derives it from the count and sum here.

use vstd::prelude::*;

use crate::counts::WordCount;
use crate::counts::lemma_contains_drop_last;
use crate::counts::lemma_sum_concat;
use crate::counts::lemma_sum_singleton;
use crate::counts::pair_of;
use crate::counts::pairs_of;
use crate::counts::sum_counts;

verus! {

/// Strict lexicographic order on words, by code point.
pub open spec fn lex_less(a: Seq<char>, b: Seq<char>) -> bool
    decreases a.len(),
{
    if b.len() == 0 {
        false
    } else if a.len() == 0 {
        true
    } else if a.first() != b.first() {
        (a.first() as u32) < (b.first() as u32)
    } else {
        lex_less(a.drop_first(), b.drop_first())
    }
}

proof fn lemma_lex_asym(a: Seq<char>, b: Seq<char>)
    requires
        lex_less(a, b),
    ensures
        !lex_less(b, a),
    decreases a.len(),
{
    if a.len() > 0 && b.len() > 0 && a.first() == b.first() {
        lemma_lex_asym(a.drop_first(), b.drop_first());
    }
}

proof fn lemma_lex_trans(a: Seq<char>, b: Seq<char>, c: Seq<char>)
    requires
        lex_less(a, b),
        lex_less(b, c),
    ensures
        lex_less(a, c),
    decreases a.len(),
{
    if a.len() > 0 && b.len() > 0 && c.len() > 0 && a.first() == b.first() && b.first()
        == c.first() {
        lemma_lex_trans(a.drop_first(), b.drop_first(), c.drop_first());
    }
}

/// The report order on entries: more occurrences first, and among equal
/// counts the lexicographically smaller word first.
pub open spec fn ranks_before(a: (Seq<char>, nat), b: (Seq<char>, nat)) -> bool {
    a.1 > b.1 || (a.1 == b.1 && lex_less(a.0, b.0))
}

proof fn lemma_ranks_asym(a: (Seq<char>, nat), b: (Seq<char>, nat))
    requires
        ranks_before(a, b),
    ensures
        !ranks_before(b, a),
{
    if a.1 == b.1 && lex_less(a.0, b.0) {
        lemma_lex_asym(a.0, b.0);
    }
}

proof fn lemma_ranks_trans(a: (Seq<char>, nat), b: (Seq<char>, nat), c: (Seq<char>, nat))
    requires
        ranks_before(a, b),
        ranks_before(b, c),
    ensures
        ranks_before(a, c),
{
    if a.1 == b.1 && b.1 == c.1 {
        lemma_lex_trans(a.0, b.0, c.0);
    }
}

/// No later entry ranks before an earlier one.
pub open spec fn rank_sorted(s: Seq<(Seq<char>, nat)>) -> bool {
    forall|i: int, j: int| 0 <= i < j < s.len() ==> !ranks_before(s[j], s[i])
}

/// `e` placed before the first entry it outranks.
pub open spec fn insert_ranked(e: (Seq<char>, nat), s: Seq<(Seq<char>, nat)>) -> Seq<
    (Seq<char>, nat),
>
    decreases s.len(),
{
    if s.len() == 0 {
        seq![e]
    } else if ranks_before(e, s.first()) {
        seq![e] + s
    } else {
        seq![s.first()] + insert_ranked(e, s.drop_first())
    }
}

/// Insertion sort of the entries under the report order.
pub open spec fn sort_ranked(s: Seq<(Seq<char>, nat)>) -> Seq<(Seq<char>, nat)>
    decreases s.len(),
{
    if s.len() == 0 {
        Seq::<(Seq<char>, nat)>::empty()
    } else {
        insert_ranked(s.last(), sort_ranked(s.drop_last()))
    }
}

pub proof fn lemma_insert_ranked_props(e: (Seq<char>, nat), s: Seq<(Seq<char>, nat)>)
    ensures
        insert_ranked(e, s).len() == s.len() + 1,
        forall|x: (Seq<char>, nat)|
            #[trigger] insert_ranked(e, s).contains(x) <==> (x == e || s.contains(x)),
        sum_counts(insert_ranked(e, s)) == e.1 + sum_counts(s),
        rank_sorted(s) ==> rank_sorted(insert_ranked(e, s)),
    decreases s.len(),
{
    let r = insert_ranked(e, s);
    if s.len() == 0 {
        lemma_sum_singleton(e);
        assert(forall|x: (Seq<char>, nat)| r.contains(x) ==> x == e) by {
            assert forall|x: (Seq<char>, nat)| r.contains(x) implies x == e by {
                let k = choose|k: int| 0 <= k < r.len() && r[k] == x;
            }
        }
        assert(r.contains(e)) by {
            assert(r[0] == e);
        }
    } else if ranks_before(e, s.first()) {
        assert(r == seq![e] + s);
        lemma_sum_concat(seq![e], s);
        lemma_sum_singleton(e);
        assert(forall|x: (Seq<char>, nat)| #[trigger] r.contains(x) <==> (x == e || s.contains(x)))
            by {
            assert forall|x: (Seq<char>, nat)|
                #[trigger] r.contains(x) implies (x == e || s.contains(x)) by {
                let k = choose|k: int| 0 <= k < r.len() && r[k] == x;
                if k > 0 {
                    assert(s[k - 1] == x);
                }
            }
            assert forall|x: (Seq<char>, nat)| (x == e || s.contains(x)) implies r.contains(x) by {
                if x == e {
                    assert(r[0] == x);
                } else {
                    let k = choose|k: int| 0 <= k < s.len() && s[k] == x;
                    assert(r[k + 1] == x);
                }
            }
        }
        if rank_sorted(s) {
            assert forall|i: int, j: int| 0 <= i < j < r.len() implies !ranks_before(r[j], r[i]) by {
                if i == 0 {
                    // r[j] is s[j - 1]; it cannot rank before e
                    if j == 1 {
                        lemma_ranks_asym(e, s.first());
                    } else {
                        assert(!ranks_before(s[j - 1], s[0]));
                        if ranks_before(s[j - 1], e) {
                            lemma_ranks_trans(s[j - 1], e, s[0]);
                        }
                    }
                } else {
                    assert(!ranks_before(s[j - 1], s[i - 1]));
                }
            }
        }
    } else {
        let rest = s.drop_first();
        lemma_insert_ranked_props(e, rest);
        let ri = insert_ranked(e, rest);
        assert(r == seq![s.first()] + ri);
        lemma_sum_concat(seq![s.first()], ri);
        lemma_sum_singleton(s.first());
        assert(sum_counts(s) == s.first().1 + sum_counts(rest)) by {
            assert(s =~= seq![s.first()] + rest);
            lemma_sum_concat(seq![s.first()], rest);
        }
        assert(forall|x: (Seq<char>, nat)| #[trigger] r.contains(x) <==> (x == e || s.contains(x)))
            by {
            assert forall|x: (Seq<char>, nat)|
                #[trigger] r.contains(x) implies (x == e || s.contains(x)) by {
                let k = choose|k: int| 0 <= k < r.len() && r[k] == x;
                if k == 0 {
                    assert(s[0] == x);
                } else {
                    assert(ri[k - 1] == x);
                    assert(ri.contains(x));
                    if x != e {
                        let m = choose|m: int| 0 <= m < rest.len() && rest[m] == x;
                        assert(s[m + 1] == x);
                    }
                }
            }
            assert forall|x: (Seq<char>, nat)| (x == e || s.contains(x)) implies r.contains(x) by {
                if x == e {
                    assert(ri.contains(x));
                    let m = choose|m: int| 0 <= m < ri.len() && ri[m] == x;
                    assert(r[m + 1] == x);
                } else {
                    let k = choose|k: int| 0 <= k < s.len() && s[k] == x;
                    if k == 0 {
                        assert(r[0] == x);
                    } else {
                        assert(rest[k - 1] == x);
                        assert(ri.contains(x));
                        let m = choose|m: int| 0 <= m < ri.len() && ri[m] == x;
                        assert(r[m + 1] == x);
                    }
                }
            }
        }
        if rank_sorted(s) {
            assert(rank_sorted(rest)) by {
                assert(forall|i: int, j: int|
                    0 <= i < j < rest.len() ==> !ranks_before(rest[j], rest[i])) by {
                    assert forall|i: int, j: int|
                        0 <= i < j < rest.len() implies !ranks_before(rest[j], rest[i]) by {
                        assert(rest[j] == s[j + 1]);
                        assert(rest[i] == s[i + 1]);
                    }
                }
            }
            assert forall|i: int, j: int| 0 <= i < j < r.len() implies !ranks_before(r[j], r[i]) by {
                if i == 0 {
                    assert(r[j] == ri[j - 1]);
                    assert(ri.contains(ri[j - 1]));
                    if ri[j - 1] == e {
                        // e does not rank before the first entry by the branch taken
                    } else {
                        assert(rest.contains(ri[j - 1]));
                        let m = choose|m: int| 0 <= m < rest.len() && rest[m] == ri[j - 1];
                        assert(!ranks_before(s[m + 1], s[0]));
                    }
                } else {
                    assert(r[i] == ri[i - 1]);
                    assert(r[j] == ri[j - 1]);
                }
            }
        }
    }
}

pub proof fn lemma_sort_ranked_props(s: Seq<(Seq<char>, nat)>)
    ensures
        sort_ranked(s).len() == s.len(),
        forall|x: (Seq<char>, nat)| #[trigger] sort_ranked(s).contains(x) <==> s.contains(x),
        sum_counts(sort_ranked(s)) == sum_counts(s),
        rank_sorted(sort_ranked(s)),
    decreases s.len(),
{
    if s.len() == 0 {
        assert(forall|x: (Seq<char>, nat)| !sort_ranked(s).contains(x));
        assert(forall|x: (Seq<char>, nat)| !s.contains(x));
    } else {
        let prev = sort_ranked(s.drop_last());
        lemma_sort_ranked_props(s.drop_last());
        lemma_insert_ranked_props(s.last(), prev);
        assert forall|x: (Seq<char>, nat)| #[trigger] sort_ranked(s).contains(x) <==> s.contains(
            x,
        ) by {
            lemma_contains_drop_last(s, x);
        }
    }
}

proof fn lemma_insert_ranked_at(e: (Seq<char>, nat), s: Seq<(Seq<char>, nat)>, j: int)
    requires
        0 <= j <= s.len(),
        forall|m: int| 0 <= m < j ==> !ranks_before(e, s[m]),
        j == s.len() || ranks_before(e, s[j]),
    ensures
        insert_ranked(e, s) == s.insert(j, e),
    decreases j,
{
    if j == 0 {
        if s.len() == 0 {
            assert(seq![e] =~= s.insert(0, e));
        } else {
            assert(seq![e] + s =~= s.insert(0, e));
        }
    } else {
        let rest = s.drop_first();
        assert(forall|m: int| 0 <= m < j - 1 ==> !ranks_before(e, rest[m]));
        lemma_insert_ranked_at(e, rest, j - 1);
        assert(seq![s.first()] + rest.insert(j - 1, e) =~= s.insert(j, e));
    }
}

/// Compares two words lexicographically by code point.
pub fn lex_less_exec(a: &str, b: &str) -> (r: bool)
    ensures
        r == lex_less(a@, b@),
{
    let la = a.unicode_len();
    let lb = b.unicode_len();
    let mut k: usize = 0;
    while k < la && k < lb
        invariant
            k <= la,
            k <= lb,
            la == a@.len(),
            lb == b@.len(),
            forall|m: int| 0 <= m < k ==> a@[m] == b@[m],
        decreases la - k,
    {
        let ca = a.get_char(k);
        let cb = b.get_char(k);
        if ca != cb {
            proof {
                lemma_lex_skip(a@, b@, k as int);
            }
            return (ca as u32) < (cb as u32);
        }
        k += 1;
    }
    proof {
        lemma_lex_skip(a@, b@, k as int);
    }
    la < lb
}

proof fn lemma_lex_skip(a: Seq<char>, b: Seq<char>, k: int)
    requires
        0 <= k <= a.len(),
        k <= b.len(),
        forall|m: int| 0 <= m < k ==> a[m] == b[m],
    ensures
        lex_less(a, b) == lex_less(a.skip(k), b.skip(k)),
    decreases k,
{
    if k == 0 {
        assert(a.skip(0) =~= a);
        assert(b.skip(0) =~= b);
    } else {
        assert(a.first() == b.first());
        assert(forall|m: int| 0 <= m < k - 1 ==> a.drop_first()[m] == b.drop_first()[m]);
        lemma_lex_skip(a.drop_first(), b.drop_first(), k - 1);
        assert(a.drop_first().skip(k - 1) =~= a.skip(k));
        assert(b.drop_first().skip(k - 1) =~= b.skip(k));
    }
}

/// Whether entry `a` should be reported before entry `b`.
fn ranks_before_exec(a: &WordCount, b: &WordCount) -> (r: bool)
    ensures
        r == ranks_before(pair_of(*a), pair_of(*b)),
{
    a.count > b.count || (a.count == b.count && lex_less_exec(a.word.as_str(), b.word.as_str()))
}

/// The number of entries retained: the requested top-N bounded by the
/// number of distinct entries, or all of them when no limit is given.
pub open spec fn spec_limit(requested: Option<usize>, available: nat) -> nat {
    match requested {
        Some(n) => {
            if n as nat <= available {
                n as nat
            } else {
                available
            }
        },
        None => available,
    }
}

/// The retained statistics entries: sorted under the report order, then
/// truncated to the limit.
pub open spec fn spec_statistics(pairs: Seq<(Seq<char>, nat)>, requested: Option<usize>) -> Seq<
    (Seq<char>, nat),
> {
    sort_ranked(pairs).take(spec_limit(requested, pairs.len()) as int)
}

proof fn lemma_sum_take_le(s: Seq<(Seq<char>, nat)>, i: int)
    requires
        0 <= i <= s.len(),
    ensures
        sum_counts(s.take(i)) <= sum_counts(s),
    decreases s.len(),
{
    if i == s.len() {
        assert(s.take(i) =~= s);
    } else {
        assert(s.drop_last().take(i) =~= s.take(i));
        lemma_sum_take_le(s.drop_last(), i);
    }
}

/// Sorts the count entries descending by count (ties: lexicographically
/// ascending by word), truncates to the requested number of results, and
/// sums the counts of the retained entries only.
pub fn calculate_statistics(word_counts: Vec<WordCount>, number_of_results: Option<usize>) -> (r: (
    usize,
    Vec<WordCount>,
))
    requires
        sum_counts(pairs_of(word_counts@)) <= usize::MAX,
    ensures
        pairs_of(r.1@) == spec_statistics(pairs_of(word_counts@), number_of_results),
        r.0 == sum_counts(spec_statistics(pairs_of(word_counts@), number_of_results)),
        r.1@.len() == spec_limit(number_of_results, word_counts@.len()),
        rank_sorted(pairs_of(r.1@)),
{
    let ghost orig = pairs_of(word_counts@);
    let mut rem = word_counts;
    let nw = rem.len();
    let mut sorted: Vec<WordCount> = Vec::new();
    let mut i: usize = 0;
    proof {
        assert(orig.len() == nw as nat);
        assert(pairs_of(sorted@) =~= sort_ranked(orig.take(0)));
        assert(pairs_of(rem@) =~= orig.skip(0));
    }
    while rem.len() > 0
        invariant
            i + rem@.len() == orig.len(),
            orig.len() <= usize::MAX,
            pairs_of(rem@) == orig.skip(i as int),
            pairs_of(sorted@) == sort_ranked(orig.take(i as int)),
        decreases rem@.len(),
    {
        let ghost rpre = rem@;
        let e = rem.remove(0);
        proof {
            assert(pairs_of(rem@) =~= pairs_of(rpre).remove(0));
            assert(pairs_of(rpre).remove(0) =~= orig.skip(i + 1));
            assert(pair_of(e) == pairs_of(rpre)[0]);
        }
        let ghost spre = pairs_of(sorted@);
        let mut j: usize = 0;
        while j < sorted.len() && !ranks_before_exec(&e, &sorted[j])
            invariant
                j <= sorted@.len(),
                spre == pairs_of(sorted@),
                forall|m: int| 0 <= m < j ==> !ranks_before(pair_of(e), spre[m]),
            decreases sorted@.len() - j,
        {
            j += 1;
        }
        proof {
            lemma_insert_ranked_at(pair_of(e), spre, j as int);
        }
        sorted.insert(j, e);
        proof {
            assert(pairs_of(sorted@) =~= spre.insert(j as int, pair_of(e)));
            let prefix = orig.take(i + 1);
            assert(prefix.drop_last() =~= orig.take(i as int));
            assert(prefix.last() == orig[i as int]);
            assert(orig[i as int] == pair_of(e));
        }
        i += 1;
    }
    proof {
        assert(orig.take(orig.len() as int) =~= orig);
        lemma_sort_ranked_props(orig);
    }
    let limit: usize = match number_of_results {
        Some(n) => {
            if n < sorted.len() {
                n
            } else {
                sorted.len()
            }
        },
        None => { sorted.len() },
    };
    proof {
        assert(limit as nat == spec_limit(number_of_results, orig.len()));
    }
    sorted.truncate(limit);
    proof {
        assert(pairs_of(sorted@) =~= sort_ranked(orig).take(limit as int));
    }
    let ghost retained = spec_statistics(orig, number_of_results);
    let mut total: usize = 0;
    let mut t: usize = 0;
    proof {
        assert(retained.take(0) =~= Seq::<(Seq<char>, nat)>::empty());
        lemma_sum_take_le(sort_ranked(orig), spec_limit(number_of_results, orig.len()) as int);
    }
    while t < sorted.len()
        invariant
            t <= sorted@.len(),
            pairs_of(sorted@) == retained,
            retained == spec_statistics(orig, number_of_results),
            sum_counts(retained) <= sum_counts(orig) <= usize::MAX,
            total == sum_counts(retained.take(t as int)),
        decreases sorted@.len() - t,
    {
        proof {
            let prefix = retained.take(t + 1);
            assert(prefix.drop_last() =~= retained.take(t as int));
            assert(prefix.last() == retained[t as int]);
            assert(retained[t as int].1 == sorted@[t as int].count);
            lemma_sum_take_le(retained, t + 1);
        }
        total = total + sorted[t].count;
        t += 1;
    }
    proof {
        assert(retained.take(sorted@.len() as int) =~= retained);
        assert forall|i2: int, j2: int|
            0 <= i2 < j2 < retained.len() implies !ranks_before(retained[j2], retained[i2]) by {
            assert(retained[i2] == sort_ranked(orig)[i2]);
            assert(retained[j2] == sort_ranked(orig)[j2]);
        }
    }
    (total, sorted)
}

} // verus!
