use vstd::prelude::*;

use crate::token::Token;
use crate::token::TokenCmp;

verus! {

// ---------------------------------------------------------------------------
// Lexicographic order on token sequences
// ---------------------------------------------------------------------------

/// Lexicographic "less than or equal" on token sequences, derived from the
/// total order on tokens. The empty sequence is least; otherwise heads are
/// compared first, and equal heads defer to the tails.
pub open spec fn seq_le<T: Token>(a: Seq<T>, b: Seq<T>) -> bool
    decreases a.len(),
{
    if a.len() == 0 {
        true
    } else if b.len() == 0 {
        false
    } else if a[0] == b[0] {
        seq_le(a.skip(1), b.skip(1))
    } else {
        a[0].le(b[0])
    }
}

/// Any two token sequences are ordered one way or the other.
pub proof fn seq_le_total<T: Token>(a: Seq<T>, b: Seq<T>)
    ensures
        seq_le(a, b) || seq_le(b, a),
    decreases a.len(),
{
    if a.len() == 0 || b.len() == 0 {
    } else if a[0] == b[0] {
        seq_le_total(a.skip(1), b.skip(1));
    } else {
        T::le_total(a[0], b[0]);
    }
}

/// Two sequences each below the other are equal.
pub proof fn seq_le_antisymmetric<T: Token>(a: Seq<T>, b: Seq<T>)
    requires
        seq_le(a, b),
        seq_le(b, a),
    ensures
        a == b,
    decreases a.len(),
{
    if a.len() == 0 {
        assert(b.len() == 0);
        assert(a =~= b);
    } else {
        if a[0] != b[0] {
            T::le_antisymmetric(a[0], b[0]);
            assert(false);
        }
        seq_le_antisymmetric(a.skip(1), b.skip(1));
        assert(a =~= b) by {
            assert(forall|i: int|
                0 < i < a.len() ==> a[i] == a.skip(1)[i - 1] && b[i] == b.skip(1)[i - 1]);
        }
    }
}

/// The lexicographic order is transitive.
pub proof fn seq_le_transitive<T: Token>(a: Seq<T>, b: Seq<T>, c: Seq<T>)
    requires
        seq_le(a, b),
        seq_le(b, c),
    ensures
        seq_le(a, c),
    decreases a.len(),
{
    if a.len() == 0 || b.len() == 0 || c.len() == 0 {
    } else if a[0] == b[0] {
        if b[0] == c[0] {
            seq_le_transitive(a.skip(1), b.skip(1), c.skip(1));
        }
    } else if b[0] == c[0] {
    } else {
        // a[0] != b[0], b[0] != c[0]: a[0].le(b[0]) and b[0].le(c[0])
        T::le_transitive(a[0], b[0], c[0]);
        if a[0] == c[0] {
            // then c[0].le(b[0]) and b[0].le(c[0]) give b[0] == c[0]
            T::le_antisymmetric(b[0], c[0]);
            assert(false);
        }
    }
}

/// `seq_le` looks only at the part after a shared prefix.
pub proof fn seq_le_common_prefix<T: Token>(a: Seq<T>, b: Seq<T>, i: int)
    requires
        0 <= i <= a.len(),
        i <= b.len(),
        forall|k: int| 0 <= k < i ==> a[k] == b[k],
    ensures
        seq_le(a, b) == seq_le(a.skip(i), b.skip(i)),
    decreases i,
{
    if i > 0 {
        assert(a.len() > 0 && b.len() > 0 && a[0] == b[0]);
        assert(forall|k: int| 0 <= k < i - 1 ==> a.skip(1)[k] == b.skip(1)[k]);
        seq_le_common_prefix(a.skip(1), b.skip(1), i - 1);
        assert(a.skip(1).skip(i - 1) =~= a.skip(i));
        assert(b.skip(1).skip(i - 1) =~= b.skip(i));
    } else {
        assert(a.skip(0) =~= a);
        assert(b.skip(0) =~= b);
    }
}

/// Three-way lexicographic comparison of two token vectors, agreeing with
/// `seq_le` on their views.
pub fn seq_compare<T: Token>(a: &Vec<T>, b: &Vec<T>) -> (c: TokenCmp)
    ensures
        match c {
            TokenCmp::Less => seq_le(a@, b@) && a@ != b@,
            TokenCmp::Equal => a@ == b@,
            TokenCmp::Greater => seq_le(b@, a@) && a@ != b@,
        },
{
    let n: usize = if a.len() < b.len() {
        a.len()
    } else {
        b.len()
    };
    let mut i: usize = 0;
    while i < n
        invariant
            0 <= i <= n,
            n <= a@.len(),
            n <= b@.len(),
            n == if a@.len() < b@.len() {
                a@.len()
            } else {
                b@.len()
            },
            forall|k: int| 0 <= k < i ==> a@[k] == b@[k],
        decreases n - i,
    {
        match a[i].compare(&b[i]) {
            TokenCmp::Less => {
                proof {
                    seq_le_common_prefix(a@, b@, i as int);
                    assert(a@.skip(i as int)[0] == a@[i as int]);
                    assert(b@.skip(i as int)[0] == b@[i as int]);
                }
                return TokenCmp::Less;
            },
            TokenCmp::Greater => {
                proof {
                    seq_le_common_prefix(b@, a@, i as int);
                    assert(a@.skip(i as int)[0] == a@[i as int]);
                    assert(b@.skip(i as int)[0] == b@[i as int]);
                }
                return TokenCmp::Greater;
            },
            TokenCmp::Equal => {
                i = i + 1;
            },
        }
    }
    if a.len() == b.len() {
        proof {
            assert(a@ =~= b@);
        }
        TokenCmp::Equal
    } else if a.len() < b.len() {
        proof {
            seq_le_common_prefix(a@, b@, n as int);
            assert(a@.skip(n as int).len() == 0);
            assert(a@.len() != b@.len());
        }
        TokenCmp::Less
    } else {
        proof {
            seq_le_common_prefix(b@, a@, n as int);
            assert(b@.skip(n as int).len() == 0);
            assert(a@.len() != b@.len());
        }
        TokenCmp::Greater
    }
}

// ---------------------------------------------------------------------------
// Canonical form of a list of sequences: sorted and duplicate-free
// ---------------------------------------------------------------------------

/// A list of sequences in canonical form: strictly increasing in the
/// lexicographic order, hence also free of duplicates.
pub open spec fn sorted_unique<T: Token>(s: Seq<Seq<T>>) -> bool {
    forall|i: int, j: int|
        0 <= i < j < s.len() ==> seq_le(#[trigger] s[i], #[trigger] s[j]) && s[i] != s[j]
}

/// Insert one sequence into a canonical list, keeping it canonical; an
/// already-present sequence is dropped.
pub open spec fn insert_canon<T: Token>(s: Seq<Seq<T>>, x: Seq<T>) -> Seq<Seq<T>>
    decreases s.len(),
{
    if s.len() == 0 {
        seq![x]
    } else if x == s[0] {
        s
    } else if seq_le(x, s[0]) {
        seq![x] + s
    } else {
        seq![s[0]] + insert_canon(s.skip(1), x)
    }
}

/// The canonical form of a list of sequences: the same sequences, sorted
/// lexicographically with duplicates removed.
pub open spec fn canon<T: Token>(s: Seq<Seq<T>>) -> Seq<Seq<T>>
    decreases s.len(),
{
    if s.len() == 0 {
        Seq::empty()
    } else {
        insert_canon(canon(s.drop_last()), s.last())
    }
}

/// Scanning past elements strictly below `x` leaves them in place.
pub proof fn lemma_insert_canon_scan<T: Token>(s: Seq<Seq<T>>, x: Seq<T>, i: int)
    requires
        0 <= i <= s.len(),
        forall|k: int| 0 <= k < i ==> x != #[trigger] s[k] && !seq_le(x, s[k]),
    ensures
        insert_canon(s, x) == s.take(i) + insert_canon(s.skip(i), x),
    decreases i,
{
    if i == 0 {
        assert(s.skip(0) =~= s);
        assert(s.take(0) + insert_canon(s, x) =~= insert_canon(s, x));
    } else {
        assert(x != s[0] && !seq_le(x, s[0]));
        assert(insert_canon(s, x) == seq![s[0]] + insert_canon(s.skip(1), x));
        let t = s.skip(1);
        assert(forall|k: int| 0 <= k < i - 1 ==> t[k] == s[k + 1]);
        lemma_insert_canon_scan(t, x, i - 1);
        assert(t.skip(i - 1) =~= s.skip(i));
        assert(seq![s[0]] + (t.take(i - 1) + insert_canon(s.skip(i), x)) =~= s.take(i)
            + insert_canon(s.skip(i), x));
    }
}

/// `insert_canon` keeps the list canonical and adds exactly the new element.
pub proof fn lemma_insert_canon<T: Token>(s: Seq<Seq<T>>, x: Seq<T>)
    requires
        sorted_unique(s),
    ensures
        sorted_unique(insert_canon(s, x)),
        forall|y: Seq<T>| #[trigger] insert_canon(s, x).contains(y) <==> s.contains(y) || y == x,
    decreases s.len(),
{
    let r = insert_canon(s, x);
    if s.len() == 0 {
        assert(forall|y: Seq<T>| r.contains(y) ==> y == x);
        assert(r.contains(x)) by {
            assert(r[0] == x);
        }
    } else if x == s[0] {
        assert(forall|y: Seq<T>| s.contains(y) || y == x ==> s.contains(y));
    } else if seq_le(x, s[0]) {
        // x goes in front: x is strictly below every element of s
        assert(forall|j: int| 0 <= j < s.len() ==> seq_le(x, s[j]) && x != s[j]) by {
            assert forall|j: int| 0 <= j < s.len() implies seq_le(x, s[j]) && x != s[j] by {
                if j > 0 {
                    seq_le_transitive(x, s[0], s[j]);
                    if x == s[j] {
                        seq_le_antisymmetric(x, s[0]);
                    }
                }
            }
        }
        assert(sorted_unique(r)) by {
            assert forall|i: int, j: int| 0 <= i < j < r.len() implies seq_le(r[i], r[j])
                && r[i] != r[j] by {
                if i == 0 {
                    assert(r[j] == s[j - 1]);
                } else {
                    assert(r[i] == s[i - 1] && r[j] == s[j - 1]);
                }
            }
        }
        assert(forall|y: Seq<T>| r.contains(y) <==> s.contains(y) || y == x) by {
            assert forall|y: Seq<T>| r.contains(y) implies s.contains(y) || y == x by {
                let k = choose|k: int| 0 <= k < r.len() && r[k] == y;
                if k > 0 {
                    assert(s[k - 1] == y);
                }
            }
            assert forall|y: Seq<T>| s.contains(y) || y == x implies r.contains(y) by {
                if y == x {
                    assert(r[0] == y);
                } else {
                    let k = choose|k: int| 0 <= k < s.len() && s[k] == y;
                    assert(r[k + 1] == y);
                }
            }
        }
    } else {
        // s[0] stays in front; x goes into the tail
        let tail = s.skip(1);
        assert(sorted_unique(tail)) by {
            assert(forall|i: int, j: int|
                0 <= i < j < tail.len() ==> tail[i] == s[i + 1] && tail[j] == s[j + 1]);
        }
        lemma_insert_canon(tail, x);
        let rt = insert_canon(tail, x);
        assert(forall|y: Seq<T>| #[trigger] rt.contains(y) <==> tail.contains(y) || y == x);
        // s[0] is strictly below x and below every tail element
        assert(seq_le(s[0], x) && s[0] != x) by {
            seq_le_total(x, s[0]);
        }
        assert(forall|y: Seq<T>| rt.contains(y) ==> seq_le(s[0], y) && s[0] != y) by {
            assert forall|y: Seq<T>| rt.contains(y) implies seq_le(s[0], y) && s[0] != y by {
                if y == x {
                } else {
                    assert(tail.contains(y));
                    let k = choose|k: int| 0 <= k < tail.len() && tail[k] == y;
                    assert(tail[k] == s[k + 1]);
                    if s[0] == y {
                        assert(s[0] == s[k + 1]);
                    }
                }
            }
        }
        assert(sorted_unique(r)) by {
            assert forall|i: int, j: int| 0 <= i < j < r.len() implies seq_le(r[i], r[j])
                && r[i] != r[j] by {
                if i == 0 {
                    assert(r[j] == rt[j - 1]);
                    assert(rt.contains(rt[j - 1]));
                } else {
                    assert(r[i] == rt[i - 1] && r[j] == rt[j - 1]);
                }
            }
        }
        assert(forall|y: Seq<T>| r.contains(y) <==> s.contains(y) || y == x) by {
            assert forall|y: Seq<T>| r.contains(y) implies s.contains(y) || y == x by {
                let k = choose|k: int| 0 <= k < r.len() && r[k] == y;
                if k == 0 {
                    assert(s[0] == y);
                } else {
                    assert(rt.contains(r[k])) by {
                        assert(rt[k - 1] == r[k]);
                    }
                    if tail.contains(y) {
                        let m = choose|m: int| 0 <= m < tail.len() && tail[m] == y;
                        assert(s[m + 1] == y);
                    }
                }
            }
            assert forall|y: Seq<T>| s.contains(y) || y == x implies r.contains(y) by {
                if y == x || !s.contains(y) {
                    assert(rt.contains(y));
                    let k = choose|k: int| 0 <= k < rt.len() && rt[k] == y;
                    assert(r[k + 1] == y);
                } else {
                    let k = choose|k: int| 0 <= k < s.len() && s[k] == y;
                    if k == 0 {
                        assert(r[0] == y);
                    } else {
                        assert(tail[k - 1] == y);
                        assert(rt.contains(y));
                        let m = choose|m: int| 0 <= m < rt.len() && rt[m] == y;
                        assert(r[m + 1] == y);
                    }
                }
            }
        }
    }
}

/// The canonical form is canonical and holds exactly the input's sequences.
pub proof fn lemma_canon<T: Token>(s: Seq<Seq<T>>)
    ensures
        sorted_unique(canon(s)),
        forall|y: Seq<T>| canon(s).contains(y) <==> s.contains(y),
    decreases s.len(),
{
    if s.len() == 0 {
    } else {
        lemma_canon(s.drop_last());
        lemma_insert_canon(canon(s.drop_last()), s.last());
        assert(forall|y: Seq<T>| s.contains(y) <==> s.drop_last().contains(y) || y == s.last())
            by {
            assert forall|y: Seq<T>| s.contains(y) implies s.drop_last().contains(y) || y
                == s.last() by {
                let k = choose|k: int| 0 <= k < s.len() && s[k] == y;
                if k < s.len() - 1 {
                    assert(s.drop_last()[k] == y);
                }
            }
            assert forall|y: Seq<T>| s.drop_last().contains(y) || y == s.last() implies s.contains(
                y,
            ) by {
                if y == s.last() {
                    assert(s[s.len() - 1] == y);
                } else {
                    let k = choose|k: int| 0 <= k < s.drop_last().len() && s.drop_last()[k] == y;
                    assert(s[k] == y);
                }
            }
        }
    }
}

/// Two canonical lists holding the same sequences are equal.
pub proof fn lemma_sorted_unique_equal<T: Token>(s1: Seq<Seq<T>>, s2: Seq<Seq<T>>)
    requires
        sorted_unique(s1),
        sorted_unique(s2),
        forall|y: Seq<T>| s1.contains(y) <==> s2.contains(y),
    ensures
        s1 == s2,
    decreases s1.len(),
{
    if s1.len() == 0 {
        if s2.len() > 0 {
            assert(s2.contains(s2[0]));
            assert(false);
        }
        assert(s1 =~= s2);
    } else {
        assert(s2.len() > 0) by {
            assert(s1.contains(s1[0]));
        }
        // the heads agree: each is the strict minimum of the shared contents
        assert(s1[0] == s2[0]) by {
            assert(s2.contains(s1[0])) by {
                assert(s1.contains(s1[0]));
            }
            assert(s1.contains(s2[0])) by {
                assert(s2.contains(s2[0]));
            }
            let k1 = choose|k: int| 0 <= k < s2.len() && s2[k] == s1[0];
            let k2 = choose|k: int| 0 <= k < s1.len() && s1[k] == s2[0];
            if k1 > 0 {
                assert(seq_le(s2[0], s1[0]));
            } else {
                assert(s2[0] == s1[0]);
            }
            if k2 > 0 {
                assert(seq_le(s1[0], s2[0]));
            } else {
                assert(s1[0] == s2[0]);
            }
            if s1[0] != s2[0] {
                seq_le_antisymmetric(s1[0], s2[0]);
            }
        }
        let t1 = s1.skip(1);
        let t2 = s2.skip(1);
        assert(sorted_unique(t1) && sorted_unique(t2)) by {
            assert(forall|i: int, j: int|
                0 <= i < j < t1.len() ==> t1[i] == s1[i + 1] && t1[j] == s1[j + 1]);
            assert(forall|i: int, j: int|
                0 <= i < j < t2.len() ==> t2[i] == s2[i + 1] && t2[j] == s2[j + 1]);
        }
        // tails hold the same contents: everything but the shared head
        assert(forall|y: Seq<T>| t1.contains(y) <==> t2.contains(y)) by {
            assert forall|y: Seq<T>| t1.contains(y) implies t2.contains(y) by {
                let k = choose|k: int| 0 <= k < t1.len() && t1[k] == y;
                assert(s1[k + 1] == y);
                assert(seq_le(s1[0], y) && s1[0] != y);
                assert(s2.contains(y)) by {
                    assert(s1.contains(y));
                }
                let m = choose|m: int| 0 <= m < s2.len() && s2[m] == y;
                assert(m > 0);
                assert(t2[m - 1] == y);
            }
            assert forall|y: Seq<T>| t2.contains(y) implies t1.contains(y) by {
                let k = choose|k: int| 0 <= k < t2.len() && t2[k] == y;
                assert(s2[k + 1] == y);
                assert(seq_le(s2[0], y) && s2[0] != y);
                assert(s1.contains(y)) by {
                    assert(s2.contains(y));
                }
                let m = choose|m: int| 0 <= m < s1.len() && s1[m] == y;
                assert(m > 0);
                assert(t1[m - 1] == y);
            }
        }
        lemma_sorted_unique_equal(t1, t2);
        assert(s1 =~= s2) by {
            assert(forall|i: int|
                0 < i < s1.len() ==> s1[i] == t1[i - 1] && s2[i] == t2[i - 1]);
        }
    }
}

} // verus!
