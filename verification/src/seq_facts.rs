//! Small reusable facts about sequences and sets: membership under `push`
//! and `take`, duplicate-freedom, and counting arguments used by the
//! subset-based inference rules.

use vstd::prelude::*;

verus! {

/// Membership in `s.push(p)` is membership in `s` or equality with `p`.
pub proof fn lemma_push_contains<T>(s: Seq<T>, p: T)
    ensures
        forall|q: T| s.push(p).contains(q) <==> s.contains(q) || q == p,
{
    assert forall|q: T| s.push(p).contains(q) implies s.contains(q) || q == p by {
        let k = choose|k: int| 0 <= k < s.push(p).len() && s.push(p)[k] == q;
        if k < s.len() {
            assert(s[k] == q);
        }
    }
    assert forall|q: T| s.contains(q) || q == p implies s.push(p).contains(q) by {
        if s.contains(q) {
            let k = choose|k: int| 0 <= k < s.len() && s[k] == q;
            assert(s.push(p)[k] == q);
        } else {
            assert(s.push(p)[s.len() as int] == q);
        }
    }
}

/// Pushing a fresh element onto a duplicate-free sequence keeps it
/// duplicate-free.
pub proof fn lemma_push_unique<T>(s: Seq<T>, p: T)
    requires
        s.no_duplicates(),
        !s.contains(p),
    ensures
        s.push(p).no_duplicates(),
{
    assert forall|i: int, j: int|
        0 <= i < s.push(p).len() && 0 <= j < s.push(p).len() && i != j implies s.push(p)[i] != s
        .push(p)[j] by {
        if i < s.len() && j < s.len() {
            assert(s[i] != s[j]);
        } else if j == s.len() {
            assert(s.contains(s[i])) by {
                assert(s[i] == s[i]);
            }
        } else {
            assert(s.contains(s[j])) by {
                assert(s[j] == s[j]);
            }
        }
    }
}

/// Membership in a one-longer prefix is membership in the prefix or
/// equality with the newly exposed element.
pub proof fn lemma_take_contains<T>(s: Seq<T>, i: int)
    requires
        0 <= i < s.len(),
    ensures
        forall|q: T| s.take(i + 1).contains(q) <==> s.take(i).contains(q) || q == s[i],
{
    assert forall|q: T| s.take(i + 1).contains(q) implies s.take(i).contains(q) || q == s[i] by {
        let k = choose|k: int| 0 <= k < i + 1 && #[trigger] s.take(i + 1)[k] == q;
        if k < i {
            assert(s.take(i)[k] == q);
        }
    }
    assert forall|q: T| s.take(i).contains(q) || q == s[i] implies s.take(i + 1).contains(q) by {
        if s.take(i).contains(q) {
            let k = choose|k: int| 0 <= k < i && #[trigger] s.take(i)[k] == q;
            assert(s.take(i + 1)[k] == q);
        } else {
            assert(s.take(i + 1)[i] == q);
        }
    }
}

/// In a duplicate-free sequence, an element does not occur before its own
/// position.
pub proof fn lemma_no_dup_prefix<T>(s: Seq<T>, i: int)
    requires
        s.no_duplicates(),
        0 <= i < s.len(),
    ensures
        !s.take(i).contains(s[i]),
{
    if s.take(i).contains(s[i]) {
        let k = choose|k: int| 0 <= k < i && #[trigger] s.take(i)[k] == s[i];
        assert(s[k] == s[i]);
    }
}

/// A duplicate-free sequence whose elements all lie in a finite set is no
/// longer than that set.
pub proof fn lemma_distinct_within<T>(s: Seq<T>, t: Set<T>)
    requires
        s.no_duplicates(),
        t.finite(),
        forall|i: int| 0 <= i < s.len() ==> t.contains(#[trigger] s[i]),
    ensures
        s.len() <= t.len(),
        s.to_set().len() == s.len(),
        s.to_set() <= t,
{
    s.unique_seq_to_set();
    assert forall|q: T| s.to_set().contains(q) implies t.contains(q) by {
        let k = choose|k: int| 0 <= k < s.len() && s[k] == q;
        assert(t.contains(s[k]));
    }
    vstd::set_lib::lemma_len_subset(s.to_set(), t);
}

/// A duplicate-free sequence whose elements all lie in a finite set of the
/// same size covers that set exactly.
pub proof fn lemma_distinct_exhausts<T>(s: Seq<T>, t: Set<T>)
    requires
        s.no_duplicates(),
        t.finite(),
        forall|i: int| 0 <= i < s.len() ==> t.contains(#[trigger] s[i]),
        s.len() == t.len(),
    ensures
        s.to_set() == t,
        forall|q: T| #[trigger] t.contains(q) ==> exists|i: int| 0 <= i < s.len() && s[i] == q,
{
    lemma_distinct_within(s, t);
    vstd::set_lib::lemma_subset_equality(s.to_set(), t);
    assert forall|q: T| #[trigger] t.contains(q) implies exists|i: int|
        0 <= i < s.len() && s[i] == q by {
        assert(s.to_set().contains(q));
        assert(s.contains(q));
    }
}

} // verus!
