//! The query engine: lower-cases the query, splits it into terms, scores
//! every section's filter by the count of distinct matching terms, drops
//! the zero scores, ranks by score with index order breaking ties, and
//! returns the best locators.

use vstd::prelude::*;

use crate::filter::blob_approx;
use crate::filter::Filter;
use crate::filter::spec_score;
use crate::index::entry_v;
use crate::index::EntryV;
use crate::index::Index;
use crate::locator::Locator;
use crate::text::char_white;
use crate::text::chars_vec;
use crate::text::lower_of;
use crate::text::lowercase;
use crate::text::string_from_chars;

verus! {

/// The longest leading run of non-whitespace characters.
pub open spec fn dark_prefix(s: Seq<char>) -> Seq<char>
    decreases s.len(),
{
    if s.len() > 0 && !char_white(s[0]) {
        seq![s[0]] + dark_prefix(s.drop_first())
    } else {
        Seq::empty()
    }
}

proof fn lemma_dark_prefix_len(s: Seq<char>)
    ensures
        dark_prefix(s).len() <= s.len(),
        s.len() > 0 && !char_white(s[0]) ==> dark_prefix(s).len() >= 1,
    decreases s.len(),
{
    if s.len() > 0 && !char_white(s[0]) {
        lemma_dark_prefix_len(s.drop_first());
    }
}

/// The whitespace-separated words of a text, in order, empty words
/// impossible, duplicates kept.
pub open spec fn spec_split_ws(s: Seq<char>) -> Seq<Seq<char>>
    decreases s.len(),
    via spec_split_ws_decreases
{
    if s.len() == 0 {
        Seq::empty()
    } else if char_white(s[0]) {
        spec_split_ws(s.drop_first())
    } else {
        seq![dark_prefix(s)] + spec_split_ws(s.skip(dark_prefix(s).len() as int))
    }
}

#[via_fn]
proof fn spec_split_ws_decreases(s: Seq<char>) {
    if s.len() > 0 && !char_white(s[0]) {
        lemma_dark_prefix_len(s);
    }
}

/// The query terms: the lower-cased query split on whitespace.
pub open spec fn term_seq(q: Seq<char>) -> Seq<Seq<char>> {
    spec_split_ws(lower_of(q))
}

/// Splits a text into its whitespace-separated words.
pub fn split_ws(s: &str) -> (r: Vec<String>)
    ensures
        r.deep_view() == spec_split_ws(s@),
{
    let cv = chars_vec(s);
    let n = cv.len();
    let mut out: Vec<String> = Vec::new();
    proof {
        assert(cv@.skip(0) =~= cv@);
        assert(out.deep_view() =~= Seq::<Seq<char>>::empty());
        assert(out.deep_view() + spec_split_ws(s@) =~= spec_split_ws(s@));
    }
    let mut i: usize = 0;
    while i < n
        invariant
            n == s@.len(),
            cv@ == s@,
            i <= n,
            out.deep_view() + spec_split_ws(s@.skip(i as int)) == spec_split_ws(s@),
        decreases n - i,
    {
        if cv[i].is_whitespace() {
            proof {
                assert(s@.skip(i as int).drop_first() =~= s@.skip(i as int + 1));
            }
            i += 1;
        } else {
            let mut j = i;
            let mut word: Vec<char> = Vec::new();
            while j < n && !cv[j].is_whitespace()
                invariant
                    n == s@.len(),
                    cv@ == s@,
                    i <= j <= n,
                    word@ == s@.subrange(i as int, j as int),
                    dark_prefix(s@.skip(i as int)) == s@.subrange(i as int, j as int)
                        + dark_prefix(s@.skip(j as int)),
                decreases n - j,
            {
                proof {
                    assert(s@.skip(j as int)[0] == s@[j as int]);
                    assert(s@.skip(j as int).drop_first() =~= s@.skip(j as int + 1));
                    assert(dark_prefix(s@.skip(j as int)) == seq![s@[j as int]] + dark_prefix(
                        s@.skip(j as int + 1),
                    ));
                    assert(s@.subrange(i as int, j as int) + (seq![s@[j as int]] + dark_prefix(
                        s@.skip(j as int + 1),
                    )) =~= s@.subrange(i as int, j as int + 1) + dark_prefix(s@.skip(j as int + 1)));
                }
                word.push(cv[j]);
                proof {
                    assert(word@ =~= s@.subrange(i as int, j as int + 1));
                }
                j += 1;
            }
            proof {
                assert(dark_prefix(s@.skip(j as int)) =~= Seq::<char>::empty());
                assert(s@.subrange(i as int, j as int) + Seq::<char>::empty() =~= s@.subrange(
                    i as int,
                    j as int,
                ));
                assert(dark_prefix(s@.skip(i as int)) == s@.subrange(i as int, j as int));
                assert(dark_prefix(s@.skip(i as int)).len() == j - i);
                assert(s@.skip(i as int).skip(j as int - i as int) =~= s@.skip(j as int));
            }
            let w = string_from_chars(&word);
            let ghost dv0 = out.deep_view();
            out.push(w);
            proof {
                assert forall|m: int| 0 <= m < out.deep_view().len() implies out.deep_view()[m]
                    == dv0.push(word@)[m] by {
                    if m < dv0.len() {
                        assert(out@[m] == out@.drop_last()[m]);
                    }
                }
                assert(out.deep_view() =~= dv0.push(word@));
                assert(spec_split_ws(s@.skip(i as int)) == seq![dark_prefix(s@.skip(i as int))]
                    + spec_split_ws(s@.skip(j as int)));
                assert((dv0 + (seq![word@] + spec_split_ws(s@.skip(j as int)))) =~= (dv0.push(
                    word@,
                ) + spec_split_ws(s@.skip(j as int))));
            }
            i = j;
        }
    }
    proof {
        assert(s@.skip(n as int) =~= Seq::<char>::empty());
        assert(out.deep_view() + Seq::<Seq<char>>::empty() =~= out.deep_view());
    }
    out
}

/// Some position of `v` holds the index `j`.
pub open spec fn holds_idx(v: Seq<usize>, j: int) -> bool {
    exists|p: int| 0 <= p < v.len() && (#[trigger] v[p]) as int == j
}

/// A section's score for a query: how many distinct terms its filter
/// contains.
pub open spec fn entry_score(es: Seq<EntryV>, terms: Seq<Seq<char>>, i: int) -> nat {
    spec_score(blob_approx(es[i].blob), terms)
}

/// Index `i` ranks strictly before `j`: a higher score, or the same score
/// and the earlier place in the index.
pub open spec fn rank_before(es: Seq<EntryV>, terms: Seq<Seq<char>>, i: int, j: int) -> bool {
    entry_score(es, terms, i) > entry_score(es, terms, j) || (entry_score(es, terms, i)
        == entry_score(es, terms, j) && i < j)
}

/// `s` is the full ranking of the index for the given terms: exactly the
/// sections with a positive score, in strictly descending rank order
/// (score first, index order breaking ties).
pub open spec fn is_ranking(s: Seq<int>, es: Seq<EntryV>, terms: Seq<Seq<char>>) -> bool {
    &&& forall|k: int|
        0 <= k < s.len() ==> 0 <= #[trigger] s[k] < es.len() && entry_score(es, terms, s[k]) > 0
    &&& forall|i: int|
        0 <= i < es.len() && entry_score(es, terms, i) > 0 ==> s.contains(i)
    &&& forall|a: int, b: int| 0 <= a < b < s.len() ==> rank_before(es, terms, #[trigger] s[a], #[trigger] s[b])
}

proof fn lemma_score_le(approx: Set<Seq<char>>, terms: Seq<Seq<char>>)
    ensures
        spec_score(approx, terms) <= terms.len(),
    decreases terms.len(),
{
    if terms.len() > 0 {
        lemma_score_le(approx, terms.drop_last());
    }
}

proof fn lemma_score_zero(approx: Set<Seq<char>>, terms: Seq<Seq<char>>)
    requires
        forall|k: int| 0 <= k < terms.len() ==> !approx.contains(#[trigger] terms[k]),
    ensures
        spec_score(approx, terms) == 0,
    decreases terms.len(),
{
    if terms.len() > 0 {
        assert(forall|k: int|
            0 <= k < terms.drop_last().len() ==> terms.drop_last()[k] == #[trigger] terms[k]);
        lemma_score_zero(approx, terms.drop_last());
        assert(terms.last() == terms[terms.len() - 1]);
    }
}

/// There is only one full ranking: two sequences that both rank the same
/// index for the same terms are equal.
pub proof fn lemma_ranking_unique(
    s1: Seq<int>,
    s2: Seq<int>,
    es: Seq<EntryV>,
    terms: Seq<Seq<char>>,
)
    requires
        is_ranking(s1, es, terms),
        is_ranking(s2, es, terms),
    ensures
        s1 == s2,
{
    lemma_sorted_same_elems(s1, s2, es, terms);
}

proof fn lemma_sorted_same_elems(s1: Seq<int>, s2: Seq<int>, es: Seq<EntryV>, terms: Seq<Seq<char>>)
    requires
        forall|a: int, b: int| 0 <= a < b < s1.len() ==> rank_before(es, terms, #[trigger] s1[a], #[trigger] s1[b]),
        forall|a: int, b: int| 0 <= a < b < s2.len() ==> rank_before(es, terms, #[trigger] s2[a], #[trigger] s2[b]),
        forall|x: int| s1.contains(x) <==> s2.contains(x),
    ensures
        s1 == s2,
    decreases s1.len(),
{
    if s1.len() == 0 {
        if s2.len() > 0 {
            assert(s2.contains(s2[0]));
            assert(s1.contains(s2[0]));
        }
        assert(s1 =~= s2);
    } else if s2.len() == 0 {
        assert(s1.contains(s1[0]));
        assert(s2.contains(s1[0]));
    } else {
        let h1 = s1[0];
        let h2 = s2[0];
        assert(s1.contains(h1));
        assert(s2.contains(h2));
        assert(s2.contains(h1));
        assert(s1.contains(h2));
        let p1 = choose|p: int| 0 <= p < s2.len() && s2[p] == h1;
        let p2 = choose|p: int| 0 <= p < s1.len() && s1[p] == h2;
        if h1 != h2 {
            assert(p1 > 0);
            assert(p2 > 0);
            assert(rank_before(es, terms, h2, s2[p1]));
            assert(rank_before(es, terms, h1, s1[p2]));
            assert(false);
        }
        let t1 = s1.drop_first();
        let t2 = s2.drop_first();
        assert forall|x: int| t1.contains(x) implies t2.contains(x) by {
            let p = choose|p: int| 0 <= p < t1.len() && t1[p] == x;
            assert(s1[p + 1] == x);
            assert(rank_before(es, terms, h1, x));
            assert(s1.contains(x));
            assert(s2.contains(x));
            let q = choose|q: int| 0 <= q < s2.len() && s2[q] == x;
            assert(q > 0) by {
                if q == 0 {
                    assert(x == h2);
                    assert(rank_before(es, terms, h1, h1));
                }
            }
            assert(t2[q - 1] == x);
            assert(t2.contains(x));
        }
        assert forall|x: int| t2.contains(x) implies t1.contains(x) by {
            let p = choose|p: int| 0 <= p < t2.len() && t2[p] == x;
            assert(s2[p + 1] == x);
            assert(rank_before(es, terms, h2, x));
            assert(s2.contains(x));
            assert(s1.contains(x));
            let q = choose|q: int| 0 <= q < s1.len() && s1[q] == x;
            assert(q > 0) by {
                if q == 0 {
                    assert(x == h1);
                    assert(rank_before(es, terms, h2, h2));
                }
            }
            assert(t1[q - 1] == x);
            assert(t1.contains(x));
        }
        assert(forall|a: int, b: int|
            0 <= a < b < t1.len() ==> rank_before(es, terms, #[trigger] t1[a], #[trigger] t1[b]))
            by {
            assert(forall|a: int| 0 <= a < t1.len() ==> #[trigger] t1[a] == s1[a + 1]);
        }
        assert(forall|a: int, b: int|
            0 <= a < b < t2.len() ==> rank_before(es, terms, #[trigger] t2[a], #[trigger] t2[b]))
            by {
            assert(forall|a: int| 0 <= a < t2.len() ==> #[trigger] t2[a] == s2[a + 1]);
        }
        lemma_sorted_same_elems(t1, t2, es, terms);
        assert(forall|k: int| 1 <= k < s1.len() ==> #[trigger] s1[k] == t1[k - 1]);
        assert(forall|k: int| 1 <= k < s2.len() ==> #[trigger] s2[k] == t2[k - 1]);
        assert(s1 =~= s2);
    }
}

/// Zero-match: a query whose every term misses every section's filter has
/// an empty ranking, so the search returns nothing.
pub proof fn lemma_zero_match(s: Seq<int>, es: Seq<EntryV>, terms: Seq<Seq<char>>)
    requires
        is_ranking(s, es, terms),
        forall|i: int, k: int|
            0 <= i < es.len() && 0 <= k < terms.len() ==> !blob_approx(
                (#[trigger] es[i]).blob,
            ).contains(#[trigger] terms[k]),
    ensures
        s.len() == 0,
{
    if s.len() > 0 {
        let i = s[0];
        assert(0 <= i < es.len() && entry_score(es, terms, i) > 0);
        lemma_score_zero(blob_approx(es[i].blob), terms);
    }
}

/// Monotonic truncation: the result for `k` results is a prefix of the
/// result for `k + 1`, because both are cut from the same full ranking.
pub proof fn lemma_search_prefix(
    s1: Seq<int>,
    s2: Seq<int>,
    es: Seq<EntryV>,
    terms: Seq<Seq<char>>,
    k: int,
)
    requires
        is_ranking(s1, es, terms),
        is_ranking(s2, es, terms),
        k >= 0,
    ensures
        ({
            let r1 = s1.take(if k <= s1.len() { k } else { s1.len() as int });
            let r2 = s2.take(if k + 1 <= s2.len() { k + 1 } else { s2.len() as int });
            r1 == r2.take(r1.len() as int)
        }),
{
    lemma_ranking_unique(s1, s2, es, terms);
    let r1 = s1.take(if k <= s1.len() { k } else { s1.len() as int });
    let r2 = s2.take(if k + 1 <= s2.len() { k + 1 } else { s2.len() as int });
    assert(r1 =~= r2.take(r1.len() as int));
}

impl Index {
    /// Ranks the index against a query and returns the locators of the
    /// best `num_results` sections: exactly the positive-score sections in
    /// descending score order, index order breaking ties, cut to length.
    /// Read-only; a query never changes the index.
    pub fn search(&self, query: &str, num_results: usize) -> (r: Vec<Locator>)
        ensures
            exists|full: Seq<int>|
                {
                    &&& #[trigger] is_ranking(full, self@, term_seq(query@))
                    &&& r@.len() == (if num_results <= full.len() {
                        num_results as int
                    } else {
                        full.len() as int
                    })
                    &&& forall|k: int|
                        0 <= k < r@.len() ==> #[trigger] r@[k]@ == (
                            self@[full[k]].title,
                            self@[full[k]].url,
                            self@[full[k]].breadcrumb,
                        )
                },
            num_results == 0 ==> r@.len() == 0,
    {
        let ghost esv = self@;
        let lower = lowercase(query);
        let terms = split_ws(lower.as_str());
        let ghost termsv = terms.deep_view();
        proof {
            assert(termsv == term_seq(query@));
        }
        let n = self.entries.len();
        let tmax = terms.len();
        let mut ranked: Vec<usize> = Vec::new();
        let mut v: usize = tmax;
        proof {
            assert(esv.len() == n);
            assert forall|i: int| 0 <= i < n implies entry_score(esv, termsv, i) <= tmax by {
                lemma_score_le(blob_approx(esv[i].blob), termsv);
            }
        }
        while v > 0
            invariant
                esv == self@,
                esv.len() == n == self.entries@.len(),
                termsv == terms.deep_view(),
                termsv.len() == tmax == terms@.len(),
                v <= tmax,
                forall|k: int|
                    0 <= k < ranked@.len() ==> 0 <= #[trigger] ranked@[k] < n && entry_score(
                        esv,
                        termsv,
                        ranked@[k] as int,
                    ) > v,
                forall|i: int|
                    0 <= i < n && entry_score(esv, termsv, i) > v ==> holds_idx(ranked@, i),
                forall|a: int, b: int|
                    0 <= a < b < ranked@.len() ==> rank_before(
                        esv,
                        termsv,
                        #[trigger] ranked@[a] as int,
                        #[trigger] ranked@[b] as int,
                    ),
                forall|i: int| 0 <= i < n ==> entry_score(esv, termsv, i) <= tmax,
            decreases v,
        {
            let mut i: usize = 0;
            while i < n
                invariant
                    esv == self@,
                    esv.len() == n == self.entries@.len(),
                    termsv == terms.deep_view(),
                    i <= n,
                    1 <= v,
                    forall|k: int|
                        0 <= k < ranked@.len() ==> 0 <= #[trigger] ranked@[k] < n && (entry_score(
                            esv,
                            termsv,
                            ranked@[k] as int,
                        ) > v || (entry_score(esv, termsv, ranked@[k] as int) == v && ranked@[k]
                            < i)),
                    forall|j: int|
                        0 <= j < n && (entry_score(esv, termsv, j) > v || (entry_score(
                            esv,
                            termsv,
                            j,
                        ) == v && j < i)) ==> holds_idx(ranked@, j),
                    forall|a: int, b: int|
                        0 <= a < b < ranked@.len() ==> rank_before(
                            esv,
                            termsv,
                            #[trigger] ranked@[a] as int,
                            #[trigger] ranked@[b] as int,
                        ),
                decreases n - i,
            {
                let s = self.entries[i].1.score(&terms);
                proof {
                    assert(entry_v(self.entries@[i as int]).blob == self.entries@[i as int].1.blob());
                    assert(self@ == self.entries@.map_values(|e: (Locator, Filter)| entry_v(e)));
                    assert(self@[i as int] == entry_v(self.entries@[i as int]));
                    assert(esv[i as int] == entry_v(self.entries@[i as int]));
                    assert(s == entry_score(esv, termsv, i as int));
                }
                if s == v {
                    let ghost r0 = ranked@;
                    ranked.push(i);
                    proof {
                        assert(forall|k: int|
                            0 <= k < r0.len() ==> #[trigger] ranked@[k] == r0[k]);
                        assert(ranked@[r0.len() as int] == i);
                        assert forall|j: int|
                            0 <= j < n && (entry_score(esv, termsv, j) > v || (entry_score(
                                esv,
                                termsv,
                                j,
                            ) == v && j < i + 1)) implies holds_idx(ranked@, j) by {
                            if j == i as int {
                                assert((ranked@[r0.len() as int]) as int == i as int);
                            } else {
                                assert(holds_idx(r0, j));
                                let p = choose|p: int|
                                    0 <= p < r0.len() && (#[trigger] r0[p]) as int == j;
                                assert((ranked@[p]) as int == j);
                            }
                        }
                    }
                }
                i += 1;
            }
            proof {
                assert forall|j: int|
                    0 <= j < n && entry_score(esv, termsv, j) > v - 1 implies holds_idx(
                    ranked@,
                    j,
                ) by {
                    assert(entry_score(esv, termsv, j) > v || entry_score(esv, termsv, j) == v);
                }
            }
            v -= 1;
        }
        let ghost fullv = ranked@.map_values(|x: usize| x as int);
        proof {
            assert forall|k: int| 0 <= k < fullv.len() implies 0 <= #[trigger] fullv[k] < esv.len()
                && entry_score(esv, termsv, fullv[k]) > 0 by {
                assert(fullv[k] == ranked@[k] as int);
            }
            assert forall|a: int, b: int| 0 <= a < b < fullv.len() implies rank_before(
                esv,
                termsv,
                #[trigger] fullv[a],
                #[trigger] fullv[b],
            ) by {
                assert(fullv[a] == ranked@[a] as int && fullv[b] == ranked@[b] as int);
            }
            assert forall|i: int|
                0 <= i < esv.len() && entry_score(esv, termsv, i) > 0 implies fullv.contains(
                i,
            ) by {
                assert(holds_idx(ranked@, i));
                let p = choose|p: int| 0 <= p < ranked@.len() && (#[trigger] ranked@[p]) as int
                    == i;
                assert(fullv[p] == i);
            }
            assert(is_ranking(fullv, esv, termsv));
        }
        let mut out: Vec<Locator> = Vec::new();
        let limit = if num_results <= ranked.len() {
            num_results
        } else {
            ranked.len()
        };
        let mut k: usize = 0;
        while k < limit
            invariant
                esv == self@,
                esv.len() == self.entries@.len(),
                fullv == ranked@.map_values(|x: usize| x as int),
                limit <= ranked@.len(),
                forall|m: int| 0 <= m < ranked@.len() ==> 0 <= #[trigger] ranked@[m] < esv.len(),
                k <= limit,
                out@.len() == k,
                forall|m: int|
                    0 <= m < k ==> #[trigger] out@[m]@ == (
                        esv[fullv[m]].title,
                        esv[fullv[m]].url,
                        esv[fullv[m]].breadcrumb,
                    ),
            decreases limit - k,
        {
            let idx = ranked[k];
            let loc = self.entries[idx].0.clone();
            out.push(loc);
            proof {
                assert(fullv[k as int] == ranked@[k as int] as int);
                assert(esv[fullv[k as int]] == entry_v(self.entries@[idx as int]));
            }
            k += 1;
        }
        proof {
            assert(out@.len() == (if num_results <= fullv.len() {
                num_results as int
            } else {
                fullv.len() as int
            }));
        }
        out
    }
}

} // verus!
