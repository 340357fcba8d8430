use vstd::prelude::*;

verus! {

// ---------------------------------------------------------------------------
// Filtering a growing prefix
// ---------------------------------------------------------------------------

/// Filtering one more element extends the filtered prefix by at most that
/// element.
pub proof fn lemma_filter_take_step<A>(s: Seq<A>, p: spec_fn(A) -> bool, i: int)
    requires
        0 <= i < s.len(),
    ensures
        s.take(i + 1).filter(p) == if p(s[i]) {
            s.take(i).filter(p).push(s[i])
        } else {
            s.take(i).filter(p)
        },
{
    let q = s.take(i + 1);
    assert(q.drop_last() =~= s.take(i));
    assert(q.last() == s[i]);
    reveal(Seq::filter);
}

/// Taking the whole sequence changes nothing.
pub proof fn lemma_take_full<A>(s: Seq<A>)
    ensures
        s.take(s.len() as int) == s,
{
    assert(s.take(s.len() as int) =~= s);
}

// ---------------------------------------------------------------------------
// Distinct keys of a list, in order of first occurrence
// ---------------------------------------------------------------------------

/// The distinct values of `kf` over `items`, listed in the order in which
/// they first occur.
pub open spec fn distinct_keys<A, K>(items: Seq<A>, kf: spec_fn(A) -> K) -> Seq<K>
    decreases items.len(),
{
    if items.len() == 0 {
        Seq::empty()
    } else {
        let prev = distinct_keys(items.drop_last(), kf);
        if prev.contains(kf(items.last())) {
            prev
        } else {
            prev.push(kf(items.last()))
        }
    }
}

/// One more item extends the key list by its key, if the key is new.
pub proof fn lemma_distinct_keys_take_step<A, K>(items: Seq<A>, kf: spec_fn(A) -> K, i: int)
    requires
        0 <= i < items.len(),
    ensures
        distinct_keys(items.take(i + 1), kf) == if distinct_keys(items.take(i), kf).contains(
            kf(items[i]),
        ) {
            distinct_keys(items.take(i), kf)
        } else {
            distinct_keys(items.take(i), kf).push(kf(items[i]))
        },
{
    let q = items.take(i + 1);
    assert(q.drop_last() =~= items.take(i));
    assert(q.last() == items[i]);
}

/// Every listed key occurs among the items, no key is listed twice, and every
/// item's key is listed.
pub proof fn lemma_distinct_keys<A, K>(items: Seq<A>, kf: spec_fn(A) -> K)
    ensures
        forall|j: int|
            0 <= j < distinct_keys(items, kf).len() ==> exists|i: int|
                0 <= i < items.len() && kf(#[trigger] items[i]) == #[trigger] distinct_keys(
                    items,
                    kf,
                )[j],
        forall|j1: int, j2: int|
            0 <= j1 < j2 < distinct_keys(items, kf).len() ==> distinct_keys(items, kf)[j1]
                != distinct_keys(items, kf)[j2],
        forall|i: int|
            0 <= i < items.len() ==> distinct_keys(items, kf).contains(kf(#[trigger] items[i])),
    decreases items.len(),
{
    let keys = distinct_keys(items, kf);
    if items.len() == 0 {
    } else {
        let sub = items.drop_last();
        lemma_distinct_keys(sub, kf);
        let prev = distinct_keys(sub, kf);
        assert(forall|i: int| 0 <= i < sub.len() ==> sub[i] == items[i]);
        assert forall|j: int| 0 <= j < keys.len() implies exists|i: int|
            0 <= i < items.len() && kf(#[trigger] items[i]) == #[trigger] keys[j] by {
            if j < prev.len() {
                let i = choose|i: int| 0 <= i < sub.len() && kf(#[trigger] sub[i]) == prev[j];
                assert(kf(items[i]) == keys[j]);
            } else {
                assert(keys[j] == kf(items[items.len() - 1]));
            }
        }
        assert forall|i: int| 0 <= i < items.len() implies keys.contains(
            kf(#[trigger] items[i]),
        ) by {
            if i < sub.len() {
                assert(prev.contains(kf(sub[i])));
                let j = choose|j: int| 0 <= j < prev.len() && prev[j] == kf(sub[i]);
                assert(keys[j] == kf(items[i]));
            } else {
                if prev.contains(kf(items.last())) {
                    assert(keys.contains(kf(items[i])));
                } else {
                    assert(keys[keys.len() - 1] == kf(items[i]));
                }
            }
        }
        assert forall|j1: int, j2: int| 0 <= j1 < j2 < keys.len() implies keys[j1] != keys[j2] by {
            if j2 < prev.len() {
            } else if !prev.contains(kf(items.last())) {
                assert(j2 == prev.len());
                assert(keys[j2] == kf(items.last()));
                if keys[j1] == keys[j2] {
                    assert(prev[j1] == kf(items.last()));
                    assert(prev.contains(kf(items.last())));
                }
            }
        }
    }
}

// ---------------------------------------------------------------------------
// The longest sequence in a list
// ---------------------------------------------------------------------------

/// The largest length among a list of sequences, `0` for an empty list.
pub open spec fn max_len<A>(seqs: Seq<Seq<A>>) -> int
    decreases seqs.len(),
{
    if seqs.len() == 0 {
        0
    } else {
        let m = max_len(seqs.drop_last());
        if seqs.last().len() > m {
            seqs.last().len() as int
        } else {
            m
        }
    }
}

/// `max_len` bounds every member's length and is attained by some member.
pub proof fn lemma_max_len<A>(seqs: Seq<Seq<A>>)
    ensures
        forall|i: int| 0 <= i < seqs.len() ==> (#[trigger] seqs[i]).len() <= max_len(seqs),
        max_len(seqs) >= 0,
        seqs.len() > 0 ==> exists|i: int|
            0 <= i < seqs.len() && (#[trigger] seqs[i]).len() == max_len(seqs),
    decreases seqs.len(),
{
    if seqs.len() > 0 {
        let sub = seqs.drop_last();
        lemma_max_len(sub);
        assert(forall|i: int| 0 <= i < sub.len() ==> sub[i] == seqs[i]);
        if seqs.last().len() > max_len(sub) {
            assert(seqs[seqs.len() - 1].len() == max_len(seqs));
        } else {
            if sub.len() == 0 {
                assert(seqs.last().len() == 0);
                assert(seqs[seqs.len() - 1].len() == max_len(seqs));
            } else {
                let i = choose|i: int| 0 <= i < sub.len() && (#[trigger] sub[i]).len() == max_len(
                    sub,
                );
                assert(seqs[i].len() == max_len(seqs));
            }
        }
    }
}

/// A list whose members all occur in another list has no greater `max_len`.
pub proof fn lemma_max_len_subset<A>(sub: Seq<Seq<A>>, sup: Seq<Seq<A>>)
    requires
        forall|y: Seq<A>| sub.contains(y) ==> sup.contains(y),
    ensures
        max_len(sub) <= max_len(sup),
{
    lemma_max_len(sub);
    lemma_max_len(sup);
    if sub.len() > 0 {
        let i = choose|i: int| 0 <= i < sub.len() && (#[trigger] sub[i]).len() == max_len(sub);
        assert(sub.contains(sub[i]));
        let j = choose|j: int| 0 <= j < sup.len() && sup[j] == sub[i];
        assert(sup[j].len() <= max_len(sup));
    }
}

/// A filtered list has no greater `max_len` than its source.
pub proof fn lemma_max_len_filter<A>(seqs: Seq<Seq<A>>, p: spec_fn(Seq<A>) -> bool)
    ensures
        max_len(seqs.filter(p)) <= max_len(seqs),
{
    let sub = seqs.filter(p);
    assert forall|y: Seq<A>| sub.contains(y) implies seqs.contains(y) by {
        seqs.lemma_filter_contains_rev(p, y);
    }
    lemma_max_len_subset(sub, seqs);
}

} // verus!
