//! The per-section approximate-membership filter.
//!
//! The structure itself is an off-the-shelf probabilistic set
//! (`cuckoofilter::CuckooFilter`); this module models it by the set of
//! strings its membership test answers `true` for.  That set is an
//! over-approximation of the tokens that were added: adding can never lose a
//! token that was added successfully (no false negatives), while unrelated
//! strings may also test positive (the bounded false-positive rate).

use vstd::prelude::*;

use cuckoofilter::CuckooFilter;
use std::collections::hash_map::DefaultHasher;

use crate::text::lower_of;
use crate::text::lowercase;

verus! {

#[verifier::external_type_specification]
#[verifier::external_body]
#[verifier::reject_recursive_types(H)]
pub struct ExCuckooFilter<H>(CuckooFilter<H>);

/// The raw bucket bytes of a filter, exactly as `CuckooFilter::export`
/// hands them out and `From<ExportedCuckooFilter>` takes them back.
pub uninterp spec fn filter_blob(f: CuckooFilter<DefaultHasher>) -> Seq<u8>;

/// The item count a filter reports, carried through export and import.
pub uninterp spec fn filter_count(f: CuckooFilter<DefaultHasher>) -> usize;

/// The set of strings for which a filter with the given bucket bytes
/// answers `true`.  Membership testing reads nothing but the buckets, so
/// this is a function of the blob alone.
pub uninterp spec fn blob_approx(blob: Seq<u8>) -> Set<Seq<char>>;

/// True for the positive powers of two.
pub open spec fn is_pow2(n: int) -> bool
    decreases n,
{
    if n <= 0 {
        false
    } else if n == 1 {
        true
    } else {
        n % 2 == 0 && is_pow2(n / 2)
    }
}

/// The smallest power of two at or above `n` (one for zero), as
/// `usize::next_power_of_two` computes it.
pub open spec fn spec_next_pow2(n: nat) -> nat
    decreases n,
{
    if n <= 1 {
        1
    } else {
        2 * spec_next_pow2(((n + 1) / 2) as nat)
    }
}

/// How many buckets a filter allocated with the given capacity holds.
pub open spec fn buckets_for(cap: nat) -> nat {
    if spec_next_pow2(cap) / 4 < 1 {
        1
    } else {
        spec_next_pow2(cap) / 4
    }
}

/// The capacity the builder requests for `n` distinct tokens: ten slots
/// per token, clamped at the allocator guard.
pub open spec fn filter_capacity(n: nat) -> nat {
    if n > 0x400_0000 {
        0x4000_0000
    } else {
        n * 10
    }
}

/// The bucket-byte length of a filter built for `n` distinct tokens.
pub open spec fn filter_size(n: nat) -> nat {
    4 * buckets_for(filter_capacity(n))
}

/// The distinct strings of `s`, first occurrences kept in order.
pub open spec fn dedup_first(s: Seq<Seq<char>>) -> Seq<Seq<char>>
    decreases s.len(),
{
    if s.len() == 0 {
        Seq::empty()
    } else {
        let rest = dedup_first(s.drop_last());
        if rest.contains(s.last()) {
            rest
        } else {
            rest.push(s.last())
        }
    }
}

proof fn lemma_next_pow2_pos(n: nat)
    ensures
        spec_next_pow2(n) >= 1,
        is_pow2(spec_next_pow2(n) as int),
    decreases n,
{
    if n > 1 {
        lemma_next_pow2_pos(((n + 1) / 2) as nat);
        let p = spec_next_pow2(((n + 1) / 2) as nat) as int;
        assert(spec_next_pow2(n) == 2 * p);
        assert((2 * p) % 2 == 0);
        assert((2 * p) / 2 == p);
    }
}

proof fn lemma_buckets_pow2(cap: nat)
    ensures
        buckets_for(cap) >= 1,
        is_pow2(buckets_for(cap) as int),
{
    lemma_next_pow2_pos(cap);
    let p = spec_next_pow2(cap) as int;
    if p / 4 >= 1 {
        assert(p > 1);
        assert(p % 2 == 0 && is_pow2(p / 2));
        assert(p / 2 >= 2);
        assert((p / 2) % 2 == 0 && is_pow2(p / 2 / 2));
        assert(p / 2 / 2 == p / 4) by (nonlinear_arith)
            requires
                p >= 4,
        ;
    }
}

/// Relies on `CuckooFilter::with_capacity`: it allocates
/// `max(1, next_power_of_two(cap) / 4)` buckets of four one-byte
/// fingerprint slots, all set to the reserved empty fingerprint, so a
/// fresh filter contains nothing and its bucket bytes have exactly that
/// length.
#[verifier::external_body]
fn cf_with_capacity(cap: usize) -> (f: CuckooFilter<DefaultHasher>)
    requires
        cap <= 0x4000_0000,
    ensures
        blob_approx(filter_blob(f)) == Set::<Seq<char>>::empty(),
        filter_count(f) == 0,
        filter_blob(f).len() == 4 * buckets_for(cap as nat),
{
    CuckooFilter::with_capacity(cap)
}

/// Relies on `CuckooFilter::add`: on success the given string and
/// everything that already tested positive keep testing positive, because
/// with a power-of-two bucket count an evicted fingerprint only ever moves
/// between its two home buckets; the bucket array never changes size.  On
/// failure a previously added item may be lost, so nothing is claimed then.
#[verifier::external_body]
fn cf_add(f: &mut CuckooFilter<DefaultHasher>, token: &str) -> (r: Result<(), ()>)
    requires
        is_pow2(filter_blob(*old(f)).len() as int / 4),
    ensures
        filter_blob(*final(f)).len() == filter_blob(*old(f)).len(),
        r is Ok ==> blob_approx(filter_blob(*final(f))).contains(token@) && blob_approx(
            filter_blob(*old(f)),
        ).subset_of(blob_approx(filter_blob(*final(f)))),
{
    f.add(token).map_err(|_| ())
}

/// Relies on `CuckooFilter::contains`: it reads only the buckets, and
/// answers by the fingerprint test this module names `blob_approx`.
#[verifier::external_body]
fn cf_contains(f: &CuckooFilter<DefaultHasher>, token: &str) -> (r: bool)
    ensures
        r == blob_approx(filter_blob(*f)).contains(token@),
{
    f.contains(token)
}

/// Relies on `CuckooFilter::export` (`From<&CuckooFilter>`): it copies out
/// the bucket bytes and the item count.
#[verifier::external_body]
fn cf_export(f: &CuckooFilter<DefaultHasher>) -> (r: (Vec<u8>, usize))
    ensures
        r.0@ == filter_blob(*f),
        r.1 == filter_count(*f),
{
    let e = f.export();
    (e.values, e.length)
}

/// Relies on `From<ExportedCuckooFilter>`: whole four-byte bucket chunks
/// are copied back in place, so the rebuilt filter exports the same bytes
/// and count.  At least one bucket is needed, or membership tests would
/// divide by the bucket count zero.
#[verifier::external_body]
fn cf_import(values: Vec<u8>, count: usize) -> (f: CuckooFilter<DefaultHasher>)
    requires
        4 <= values@.len(),
        values@.len() % 4 == 0,
    ensures
        filter_blob(f) == values@,
        filter_count(f) == count,
{
    CuckooFilter::from(cuckoofilter::ExportedCuckooFilter { values, length: count })
}

/// A build failure: either a document broke the input contract, or a
/// filter ran out of room while a token was added (the structure's internal
/// retry budget was exhausted).  Both are fatal for the whole build.
#[derive(PartialEq, Eq, Structural, Clone, Copy, Debug)]
pub enum IndexBuildError {
    MissingSourcePath,
    FilterSaturated,
}

/// An approximate-membership filter over one section's token set.
/// Immutable after construction.
pub struct Filter {
    cf: CuckooFilter<DefaultHasher>,
}

/// True when some string in `ss` reads as the character sequence `t`.
pub open spec fn holds_str(ss: Seq<String>, t: Seq<char>) -> bool {
    exists|k: int| 0 <= k < ss.len() && ss[k]@ == t
}

/// Count of distinct terms in `terms` that `approx` contains: a term
/// scores once, however often it repeats.
pub open spec fn spec_score(approx: Set<Seq<char>>, terms: Seq<Seq<char>>) -> nat
    decreases terms.len(),
{
    if terms.len() == 0 {
        0
    } else {
        let rest = spec_score(approx, terms.drop_last());
        if approx.contains(terms.last()) && !terms.drop_last().contains(terms.last()) {
            rest + 1
        } else {
            rest
        }
    }
}

impl Filter {
    /// The set of strings this filter answers `true` for: every token that
    /// was added, plus the bounded false positives.  Membership reads
    /// nothing but the serialized buckets, so it is determined by `blob`.
    pub open spec fn approx(&self) -> Set<Seq<char>> {
        blob_approx(self.blob())
    }

    /// The filter's serialized byte representation (owned by the filter
    /// structure itself; the codec treats it as an opaque blob).
    pub closed spec fn blob(&self) -> Seq<u8> {
        filter_blob(self.cf)
    }

    /// The item count the filter carries alongside its buckets.
    pub closed spec fn count(&self) -> usize {
        filter_count(self.cf)
    }

    /// A filter's blob is whole non-empty buckets of four slots.
    pub open spec fn wf(&self) -> bool {
        4 <= self.blob().len() && self.blob().len() % 4 == 0
    }

    /// Builds the filter for one section: deduplicates the tokens, sizes
    /// the structure to ten slots per distinct token, lower-cases each one
    /// (the same normalization the query path applies) and adds it.  On
    /// success every given token is a member under its lower-cased form
    /// and the filter's buckets have exactly the size that capacity buys;
    /// a token that cannot be placed fails the build rather than being
    /// dropped silently, and only then.  With no tokens nothing is added,
    /// so the build succeeds.
    pub fn build(tokens: &Vec<String>) -> (r: Result<Filter, IndexBuildError>)
        ensures
            r matches Ok(f) ==> f.wf() && f.blob().len() == filter_size(
                dedup_first(tokens.deep_view()).len(),
            ) && forall|i: int|
                0 <= i < tokens@.len() ==> f.approx().contains(lower_of(#[trigger] tokens@[i]@)),
            r matches Err(e) ==> e == IndexBuildError::FilterSaturated,
            tokens@.len() == 0 ==> r is Ok,
    {
        let ghost tokensv = tokens.deep_view();
        let mut distinct: Vec<String> = Vec::new();
        proof {
            assert(tokensv.len() == tokens@.len());
            assert(forall|j: int| 0 <= j < tokensv.len() ==> tokensv[j] == #[trigger] tokens@[j]@);
            assert(tokensv.take(0) =~= Seq::<Seq<char>>::empty());
            assert(distinct.deep_view() =~= Seq::<Seq<char>>::empty());
        }
        let mut i: usize = 0;
        while i < tokens.len()
            invariant
                tokensv == tokens.deep_view(),
                tokensv.len() == tokens@.len(),
                forall|j: int| 0 <= j < tokensv.len() ==> tokensv[j] == #[trigger] tokens@[j]@,
                i <= tokens@.len(),
                forall|j: int| 0 <= j < i ==> holds_str(distinct@, #[trigger] tokens@[j]@),
                distinct.deep_view() == dedup_first(tokensv.take(i as int)),
            decreases tokens@.len() - i,
        {
            let mut seen = false;
            let mut k: usize = 0;
            while k < distinct.len()
                invariant
                    k <= distinct@.len(),
                    seen <==> exists|m: int| 0 <= m < k && #[trigger] distinct@[m]@ == tokens@[
                        i as int
                    ]@,
                    i < tokens@.len(),
                decreases distinct@.len() - k,
            {
                if distinct[k].eq(&tokens[i]) {
                    seen = true;
                }
                k += 1;
            }
            let ghost oldd = distinct@;
            let ghost dv0 = distinct.deep_view();
            proof {
                assert(forall|m: int| 0 <= m < oldd.len() ==> dv0[m] == #[trigger] oldd[m]@);
                assert(tokensv.take(i as int + 1).drop_last() =~= tokensv.take(i as int));
                assert(tokensv.take(i as int + 1).last() == tokensv[i as int]);
                if seen {
                    let m = choose|m: int| 0 <= m < oldd.len() && oldd[m]@ == tokens@[i as int]@;
                    assert(dv0[m] == tokensv[i as int]);
                    assert(dv0.contains(tokensv[i as int]));
                } else {
                    assert(!dv0.contains(tokensv[i as int])) by {
                        if dv0.contains(tokensv[i as int]) {
                            let m = choose|m: int|
                                0 <= m < dv0.len() && dv0[m] == tokensv[i as int];
                            assert(oldd[m]@ == tokens@[i as int]@);
                        }
                    }
                }
            }
            if !seen {
                distinct.push(tokens[i].clone());
                proof {
                    assert(distinct@ =~= oldd.push(tokens@[i as int]));
                    assert forall|m: int| 0 <= m < distinct@.len() implies distinct.deep_view()[m]
                        == dv0.push(tokensv[i as int])[m] by {
                        if m < oldd.len() {
                            assert(distinct@[m] == oldd[m]);
                            assert(dv0[m] == oldd[m]@);
                        } else {
                            assert(distinct@[m] == tokens@[i as int]);
                        }
                    }
                    assert(distinct.deep_view() =~= dv0.push(tokensv[i as int]));
                }
            }
            proof {
                assert(distinct.deep_view() == dedup_first(tokensv.take(i as int + 1)));
                assert forall|j: int| 0 <= j < i + 1 implies holds_str(
                    distinct@,
                    #[trigger] tokens@[j]@,
                ) by {
                    if j < i {
                        let k0 = choose|k: int|
                            0 <= k < oldd.len() && oldd[k]@ == #[trigger] tokens@[j]@;
                        assert(distinct@[k0]@ == tokens@[j]@);
                    } else if seen {
                        let m = choose|m: int|
                            0 <= m < oldd.len() && oldd[m]@ == tokens@[i as int]@;
                        assert(distinct@[m]@ == tokens@[j]@);
                    } else {
                        assert(distinct@[oldd.len() as int]@ == tokens@[j]@);
                    }
                }
            }
            i += 1;
        }
        proof {
            assert(tokensv.take(tokensv.len() as int) =~= tokensv);
            assert(distinct.deep_view().len() == distinct@.len());
        }

        let n = distinct.len();
        let cap: usize = if n > 0x400_0000 {
            0x4000_0000
        } else {
            n * 10
        };
        proof {
            assert(cap as nat == filter_capacity(n as nat));
        }
        let mut cf = cf_with_capacity(cap);
        let ghost blen = filter_blob(cf).len();
        proof {
            lemma_buckets_pow2(cap as nat);
            assert(blen == 4 * buckets_for(cap as nat));
            assert(blen == filter_size(dedup_first(tokensv).len()));
            assert(4 <= blen);
            assert(blen % 4 == 0);
            assert(blen as int / 4 == buckets_for(cap as nat));
            assert(is_pow2(blen as int / 4));
        }
        let mut k: usize = 0;
        while k < distinct.len()
            invariant
                k <= distinct@.len(),
                filter_blob(cf).len() == blen,
                4 <= blen,
                blen % 4 == 0,
                is_pow2(blen as int / 4),
                tokens@.len() == 0 ==> distinct@.len() == 0,
                forall|m: int|
                    0 <= m < k ==> blob_approx(filter_blob(cf)).contains(
                        lower_of(#[trigger] distinct@[m]@),
                    ),
            decreases distinct@.len() - k,
        {
            let lowered = lowercase(distinct[k].as_str());
            let added = cf_add(&mut cf, lowered.as_str());
            if added.is_err() {
                return Err(IndexBuildError::FilterSaturated);
            }
            k += 1;
        }

        let f = Filter { cf };
        proof {
            assert forall|i: int| 0 <= i < tokens@.len() implies f.approx().contains(
                lower_of(#[trigger] tokens@[i]@),
            ) by {
                assert(holds_str(distinct@, tokens@[i]@));
                let k = choose|k: int| 0 <= k < distinct@.len() && distinct@[k]@ == tokens@[i]@;
                assert(f.approx().contains(lower_of(distinct@[k]@)));
            }
        }
        Ok(f)
    }

    /// Membership test.  A token that was added always answers `true` (no
    /// false negatives); a string never added may also answer `true`, at
    /// the structure's bounded false-positive rate.
    pub fn contains(&self, token: &str) -> (r: bool)
        ensures
            r == self.approx().contains(token@),
    {
        cf_contains(&self.cf, token)
    }

    /// The section's relevance score for a query: how many distinct query
    /// terms this filter contains.
    pub fn score(&self, terms: &Vec<String>) -> (r: usize)
        ensures
            r == spec_score(self.approx(), terms.deep_view()),
    {
        let ghost termsv = terms.deep_view();
        let mut r: usize = 0;
        let mut i: usize = 0;
        while i < terms.len()
            invariant
                i <= terms@.len(),
                termsv == terms.deep_view(),
                termsv.len() == terms@.len(),
                forall|j: int| 0 <= j < termsv.len() ==> termsv[j] == #[trigger] terms@[j]@,
                r == spec_score(self.approx(), termsv.take(i as int)),
                r <= i,
            decreases terms@.len() - i,
        {
            let mut dup = false;
            let mut k: usize = 0;
            while k < i
                invariant
                    k <= i < terms@.len(),
                    forall|j: int| 0 <= j < termsv.len() ==> termsv[j] == #[trigger] terms@[j]@,
                    termsv.len() == terms@.len(),
                    dup <==> exists|m: int| 0 <= m < k && #[trigger] termsv[m] == termsv[i as int],
                decreases i - k,
            {
                if terms[k].eq(&terms[i]) {
                    dup = true;
                }
                k += 1;
            }
            proof {
                assert(termsv.take(i as int + 1).drop_last() =~= termsv.take(i as int));
                assert(termsv.take(i as int + 1).last() == termsv[i as int]);
                assert(dup <==> termsv.take(i as int).contains(termsv[i as int])) by {
                    if dup {
                        let m = choose|m: int| 0 <= m < i && termsv[m] == termsv[i as int];
                        assert(termsv.take(i as int)[m] == termsv[i as int]);
                    } else if termsv.take(i as int).contains(termsv[i as int]) {
                        let j = choose|j: int|
                            0 <= j < termsv.take(i as int).len() && termsv.take(i as int)[j]
                                == termsv[i as int];
                        assert(termsv[j] == termsv[i as int]);
                    }
                }
            }
            if !dup && self.contains(terms[i].as_str()) {
                r += 1;
            }
            i += 1;
        }
        proof {
            assert(termsv.take(termsv.len() as int) =~= termsv);
        }
        r
    }

    /// Hands the filter's serialized representation to the codec.
    pub fn to_blob(&self) -> (r: (Vec<u8>, usize))
        ensures
            r.0@ == self.blob(),
            r.1 == self.count(),
    {
        cf_export(&self.cf)
    }

    /// Rebuilds a filter from its serialized representation.
    pub fn from_blob(values: Vec<u8>, count: usize) -> (f: Filter)
        requires
            4 <= values@.len(),
            values@.len() % 4 == 0,
        ensures
            f.blob() == values@,
            f.count() == count,
            f.wf(),
    {
        Filter { cf: cf_import(values, count) }
    }
}

} // verus!
