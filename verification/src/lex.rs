//! Lexicographic order on atom sequences: the order every tuple set and
//! boolean matrix is kept in.

use vstd::prelude::*;

verus! {

/// Strict lexicographic order on sequences of atom indices, with a proper
/// prefix ordered before its extensions (the order of `Vec`'s derived `Ord`).
pub open spec fn lex_lt(a: Seq<nat>, b: Seq<nat>) -> bool
    decreases a.len(),
{
    if a.len() == 0 {
        b.len() > 0
    } else if b.len() == 0 {
        false
    } else if a[0] != b[0] {
        a[0] < b[0]
    } else {
        lex_lt(a.drop_first(), b.drop_first())
    }
}

/// No sequence precedes itself.
pub proof fn lemma_lex_irreflexive(a: Seq<nat>)
    ensures
        !lex_lt(a, a),
    decreases a.len(),
{
    if a.len() > 0 {
        lemma_lex_irreflexive(a.drop_first());
    }
}

/// The order is transitive.
pub proof fn lemma_lex_transitive(a: Seq<nat>, b: Seq<nat>, c: Seq<nat>)
    requires
        lex_lt(a, b),
        lex_lt(b, c),
    ensures
        lex_lt(a, c),
    decreases a.len(),
{
    if a.len() > 0 && b.len() > 0 && c.len() > 0 {
        if a[0] == b[0] && b[0] == c[0] {
            lemma_lex_transitive(a.drop_first(), b.drop_first(), c.drop_first());
        }
    }
}

/// Any two distinct sequences are comparable.
pub proof fn lemma_lex_total(a: Seq<nat>, b: Seq<nat>)
    requires
        a != b,
    ensures
        lex_lt(a, b) || lex_lt(b, a),
    decreases a.len(),
{
    if a.len() == 0 {
        if b.len() == 0 {
            assert(a =~= b);
        }
    } else if b.len() > 0 && a[0] == b[0] {
        if a.drop_first() == b.drop_first() {
            assert(a.drop_first().len() == b.drop_first().len());
            assert(a =~= b) by {
                assert forall|i: int| 0 <= i < a.len() implies a[i] == b[i] by {
                    if i > 0 {
                        assert(a[i] == a.drop_first()[i - 1]);
                        assert(b[i] == b.drop_first()[i - 1]);
                    }
                }
            }
        } else {
            lemma_lex_total(a.drop_first(), b.drop_first());
        }
    }
}

/// The order is asymmetric.
pub proof fn lemma_lex_asymmetric(a: Seq<nat>, b: Seq<nat>)
    requires
        lex_lt(a, b),
    ensures
        !lex_lt(b, a),
{
    if lex_lt(b, a) {
        lemma_lex_transitive(a, b, a);
        lemma_lex_irreflexive(a);
    }
}

/// Sequences that share their first `i` elements compare as their suffixes do.
pub proof fn lemma_lex_common_prefix(a: Seq<nat>, b: Seq<nat>, i: int)
    requires
        0 <= i <= a.len(),
        i <= b.len(),
        a.take(i) == b.take(i),
    ensures
        lex_lt(a, b) == lex_lt(a.skip(i), b.skip(i)),
    decreases i,
{
    if i == 0 {
        assert(a.skip(0) =~= a);
        assert(b.skip(0) =~= b);
    } else {
        assert(a[0] == a.take(i)[0]);
        assert(b[0] == b.take(i)[0]);
        assert(a.drop_first().take(i - 1) =~= a.take(i).drop_first());
        assert(b.drop_first().take(i - 1) =~= b.take(i).drop_first());
        lemma_lex_common_prefix(a.drop_first(), b.drop_first(), i - 1);
        assert(a.drop_first().skip(i - 1) =~= a.skip(i));
        assert(b.drop_first().skip(i - 1) =~= b.skip(i));
    }
}

/// A sequence strictly ordered by `lex_lt` has no duplicates and is ordered
/// between every pair of positions.
pub open spec fn lex_sorted(s: Seq<Seq<nat>>) -> bool {
    forall|i: int, j: int| 0 <= i < j < s.len() ==> lex_lt(#[trigger] s[i], #[trigger] s[j])
}

/// A strictly sorted sequence has no duplicates.
pub proof fn lemma_lex_sorted_no_duplicates(s: Seq<Seq<nat>>)
    requires
        lex_sorted(s),
    ensures
        s.no_duplicates(),
{
    assert forall|i: int, j: int| 0 <= i < s.len() && 0 <= j < s.len() && i != j implies s[i]
        != s[j] by {
        if i < j {
            assert(lex_lt(s[i], s[j]));
            lemma_lex_irreflexive(s[i]);
        } else {
            assert(lex_lt(s[j], s[i]));
            lemma_lex_irreflexive(s[j]);
        }
    }
}

/// Two strictly sorted sequences with the same elements are identical: the
/// sorted order is the canonical listing of a set.
pub proof fn lemma_lex_sorted_unique(s: Seq<Seq<nat>>, t: Seq<Seq<nat>>)
    requires
        lex_sorted(s),
        lex_sorted(t),
        s.to_set() == t.to_set(),
    ensures
        s == t,
    decreases s.len() + t.len(),
{
    lemma_lex_sorted_no_duplicates(s);
    lemma_lex_sorted_no_duplicates(t);
    s.unique_seq_to_set();
    t.unique_seq_to_set();
    if s.len() == 0 {
        if t.len() > 0 {
            assert(t.to_set().contains(t[0]));
        }
        assert(s =~= t);
    } else {
        assert(t.len() > 0) by {
            assert(s.to_set().contains(s[0]));
        }
        // The least elements coincide.
        assert(t.to_set().contains(s[0]));
        assert(s.to_set().contains(t[0]));
        let i = choose|i: int| 0 <= i < t.len() && t[i] == s[0];
        let j = choose|j: int| 0 <= j < s.len() && s[j] == t[0];
        if i > 0 {
            assert(lex_lt(t[0], t[i]));
            if j > 0 {
                assert(lex_lt(s[0], s[j]));
                lemma_lex_asymmetric(t[0], s[0]);
            } else {
                lemma_lex_irreflexive(t[0]);
            }
        }
        assert(t[0] == s[0]);
        let s1 = s.drop_first();
        let t1 = t.drop_first();
        assert(lex_sorted(s1)) by {
            assert forall|a: int, b: int| 0 <= a < b < s1.len() implies lex_lt(
                #[trigger] s1[a],
                #[trigger] s1[b],
            ) by {
                assert(s1[a] == s[a + 1]);
                assert(s1[b] == s[b + 1]);
            }
        }
        assert(lex_sorted(t1)) by {
            assert forall|a: int, b: int| 0 <= a < b < t1.len() implies lex_lt(
                #[trigger] t1[a],
                #[trigger] t1[b],
            ) by {
                assert(t1[a] == t[a + 1]);
                assert(t1[b] == t[b + 1]);
            }
        }
        assert(s1.to_set() =~= t1.to_set()) by {
            assert forall|x: Seq<nat>| s1.to_set().contains(x) implies t1.to_set().contains(x) by {
                let k = choose|k: int| 0 <= k < s1.len() && s1[k] == x;
                assert(s.to_set().contains(x));
                assert(lex_lt(s[0], s[k + 1]));
                let m = choose|m: int| 0 <= m < t.len() && t[m] == x;
                if m == 0 {
                    lemma_lex_irreflexive(s[0]);
                }
                assert(t1[m - 1] == x);
            }
            assert forall|x: Seq<nat>| t1.to_set().contains(x) implies s1.to_set().contains(x) by {
                let k = choose|k: int| 0 <= k < t1.len() && t1[k] == x;
                assert(t.to_set().contains(x));
                assert(lex_lt(t[0], t[k + 1]));
                let m = choose|m: int| 0 <= m < s.len() && s[m] == x;
                if m == 0 {
                    lemma_lex_irreflexive(t[0]);
                }
                assert(s1[m - 1] == x);
            }
        }
        lemma_lex_sorted_unique(s1, t1);
        assert(s =~= t) by {
            assert forall|k: int| 0 <= k < s.len() implies s[k] == t[k] by {
                if k > 0 {
                    assert(s[k] == s1[k - 1]);
                    assert(t[k] == t1[k - 1]);
                }
            }
        }
    }
}


/// A strictly sorted sequence with `a` put in its place.
pub open spec fn insert_sorted(q: Seq<Seq<nat>>, a: Seq<nat>) -> Seq<Seq<nat>>
    decreases q.len(),
{
    if q.len() == 0 {
        seq![a]
    } else if lex_lt(q.last(), a) {
        q.push(a)
    } else {
        insert_sorted(q.drop_last(), a).push(q.last())
    }
}

/// Putting a new element in its place keeps the sequence strictly sorted
/// and adds just that element.
pub proof fn lemma_insert_sorted(q: Seq<Seq<nat>>, a: Seq<nat>)
    requires
        lex_sorted(q),
        !q.contains(a),
    ensures
        lex_sorted(insert_sorted(q, a)),
        insert_sorted(q, a).to_set() == q.to_set().insert(a),
    decreases q.len(),
{
    if q.len() == 0 {
        assert(seq![a].to_set() =~= Set::<Seq<nat>>::empty().insert(a)) by {
            assert(seq![a][0] == a);
        }
        assert(q.to_set() =~= Set::<Seq<nat>>::empty());
    } else if lex_lt(q.last(), a) {
        let r = q.push(a);
        assert forall|i: int, j: int| 0 <= i < j < r.len() implies lex_lt(#[trigger] r[i], #[trigger] r[j]) by {
            if j == r.len() - 1 {
                if i < q.len() - 1 {
                    assert(lex_lt(q[i], q[q.len() - 1]));
                    lemma_lex_transitive(q[i], q.last(), a);
                }
            } else {
                assert(r[i] == q[i] && r[j] == q[j]);
            }
        }
        q.lemma_push_to_set_commute(a);
    } else {
        let init = q.drop_last();
        let l = q.last();
        assert(lex_sorted(init)) by {
            assert forall|i: int, j: int| 0 <= i < j < init.len() implies lex_lt(#[trigger] init[i], #[trigger] init[j]) by {
                assert(init[i] == q[i] && init[j] == q[j]);
            }
        }
        assert(!init.contains(a)) by {
            if init.contains(a) {
                let k = choose|k: int| 0 <= k < init.len() && init[k] == a;
                assert(q[k] == a);
            }
        }
        assert(a != l) by {
            assert(q[q.len() - 1] == l);
        }
        lemma_lex_total(a, l);
        lemma_insert_sorted(init, a);
        let r0 = insert_sorted(init, a);
        let r = r0.push(l);
        assert forall|x: Seq<nat>| r0.contains(x) implies lex_lt(x, l) by {
            assert(r0.to_set().contains(x));
            if x != a {
                assert(init.to_set().contains(x));
                let k = choose|k: int| 0 <= k < init.len() && init[k] == x;
                assert(q[k] == x);
                assert(lex_lt(q[k], q[q.len() - 1]));
            }
        }
        assert forall|i: int, j: int| 0 <= i < j < r.len() implies lex_lt(#[trigger] r[i], #[trigger] r[j]) by {
            if j == r.len() - 1 {
                assert(r0.contains(r0[i]));
            } else {
                assert(r[i] == r0[i] && r[j] == r0[j]);
            }
        }
        r0.lemma_push_to_set_commute(l);
        assert(q == init.push(l));
        init.lemma_push_to_set_commute(l);
        assert(r.to_set() =~= q.to_set().insert(a));
    }
}

} // verus!
