use vstd::prelude::*;

verus! {

/// Strict lexicographic order on integer sequences. The first differing
/// position decides; a proper prefix comes before every extension of it.
pub open spec fn lex_lt(a: Seq<int>, b: Seq<int>) -> bool
    decreases a.len(),
{
    if b.len() == 0 {
        false
    } else if a.len() == 0 {
        true
    } else if a[0] < b[0] {
        true
    } else if a[0] > b[0] {
        false
    } else {
        lex_lt(a.drop_first(), b.drop_first())
    }
}

/// No sequence comes before itself.
pub proof fn lemma_lex_irreflexive(a: Seq<int>)
    ensures
        !lex_lt(a, a),
    decreases a.len(),
{
    if a.len() > 0 {
        lemma_lex_irreflexive(a.drop_first());
    }
}

/// Any two sequences are ordered or equal.
pub proof fn lemma_lex_total(a: Seq<int>, b: Seq<int>)
    ensures
        lex_lt(a, b) || lex_lt(b, a) || a == b,
    decreases a.len(),
{
    if a.len() == 0 && b.len() == 0 {
        assert(a =~= b);
    } else if a.len() > 0 && b.len() > 0 && a[0] == b[0] {
        lemma_lex_total(a.drop_first(), b.drop_first());
        if a.drop_first() == b.drop_first() {
            assert(a.len() == b.len());
            assert forall|i: int| 0 <= i < a.len() implies a[i] == b[i] by {
                if i >= 1 {
                    assert(a.drop_first()[i - 1] == b.drop_first()[i - 1]);
                }
            }
            assert(a =~= b);
        }
    }
}

/// At most one direction of the order holds.
pub proof fn lemma_lex_asymmetric(a: Seq<int>, b: Seq<int>)
    requires
        lex_lt(a, b),
    ensures
        !lex_lt(b, a),
    decreases a.len(),
{
    if a.len() > 0 && b.len() > 0 && a[0] == b[0] {
        lemma_lex_asymmetric(a.drop_first(), b.drop_first());
    }
}

/// The order is transitive.
pub proof fn lemma_lex_transitive(a: Seq<int>, b: Seq<int>, c: Seq<int>)
    requires
        lex_lt(a, b),
        lex_lt(b, c),
    ensures
        lex_lt(a, c),
    decreases a.len(),
{
    if a.len() > 0 && b.len() > 0 && c.len() > 0 && a[0] == b[0] && b[0] == c[0] {
        lemma_lex_transitive(a.drop_first(), b.drop_first(), c.drop_first());
    }
}

/// Sequences that agree before position `k` and differ there are ordered by
/// that position.
pub proof fn lemma_lex_first_diff(a: Seq<int>, b: Seq<int>, k: int)
    requires
        0 <= k < a.len(),
        k < b.len(),
        forall|j: int| 0 <= j < k ==> a[j] == b[j],
        a[k] < b[k],
    ensures
        lex_lt(a, b),
    decreases k,
{
    if k > 0 {
        assert(a[0] == b[0]);
        assert(forall|j: int|
            0 <= j < k - 1 ==> a.drop_first()[j] == a[j + 1] && b.drop_first()[j] == b[j + 1]);
        lemma_lex_first_diff(a.drop_first(), b.drop_first(), k - 1);
    }
}

/// The lexicographically greatest member of a sequence of keys; the empty
/// sequence for no keys.
pub open spec fn lex_max(ks: Seq<Seq<int>>) -> Seq<int>
    decreases ks.len(),
{
    if ks.len() == 0 {
        Seq::empty()
    } else if ks.len() == 1 {
        ks[0]
    } else {
        let m = lex_max(ks.drop_first());
        if lex_lt(ks[0], m) {
            m
        } else {
            ks[0]
        }
    }
}

/// `lex_max` is a member of the keys and no key comes after it.
pub proof fn lemma_lex_max_properties(ks: Seq<Seq<int>>)
    requires
        ks.len() > 0,
    ensures
        ks.contains(lex_max(ks)),
        forall|i: int| 0 <= i < ks.len() ==> !lex_lt(lex_max(ks), #[trigger] ks[i]),
    decreases ks.len(),
{
    if ks.len() == 1 {
        assert(ks[0] == lex_max(ks));
        lemma_lex_irreflexive(ks[0]);
    } else {
        let rest = ks.drop_first();
        lemma_lex_max_properties(rest);
        let m = lex_max(rest);
        if lex_lt(ks[0], m) {
            assert(lex_max(ks) == m);
            let j = choose|j: int| 0 <= j < rest.len() && rest[j] == m;
            assert(ks[j + 1] == rest[j]);
            assert(ks.contains(m));
            lemma_lex_asymmetric(ks[0], m);
            assert forall|i: int| 0 <= i < ks.len() implies !lex_lt(m, #[trigger] ks[i]) by {
                if i >= 1 {
                    assert(ks[i] == rest[i - 1]);
                    assert(!lex_lt(m, rest[i - 1]));
                }
            }
        } else {
            assert(ks[0] == lex_max(ks));
            assert(ks.contains(ks[0]));
            lemma_lex_irreflexive(ks[0]);
            lemma_lex_total(ks[0], m);
            assert forall|i: int| 0 <= i < ks.len() implies !lex_lt(ks[0], #[trigger] ks[i]) by {
                if i >= 1 {
                    assert(ks[i] == rest[i - 1]);
                    assert(!lex_lt(m, rest[i - 1]));
                    if lex_lt(ks[0], ks[i]) {
                        lemma_lex_total(m, rest[i - 1]);
                        if m == rest[i - 1] {
                            assert(lex_lt(ks[0], m));
                        } else {
                            assert(lex_lt(rest[i - 1], m));
                            lemma_lex_transitive(ks[0], rest[i - 1], m);
                        }
                    }
                }
            }
        }
    }
}

/// A member key that no key comes after is the `lex_max`.
pub proof fn lemma_lex_max_unique(ks: Seq<Seq<int>>, k: Seq<int>)
    requires
        ks.contains(k),
        forall|i: int| 0 <= i < ks.len() ==> !lex_lt(k, #[trigger] ks[i]),
    ensures
        k == lex_max(ks),
{
    lemma_lex_max_properties(ks);
    let i = choose|i: int| 0 <= i < ks.len() && ks[i] == lex_max(ks);
    assert(!lex_lt(k, ks[i]));
    let j = choose|j: int| 0 <= j < ks.len() && ks[j] == k;
    assert(!lex_lt(lex_max(ks), ks[j]));
    lemma_lex_total(k, lex_max(ks));
}

} // verus!
