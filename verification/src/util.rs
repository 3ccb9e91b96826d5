//! Counting and filtering by an index predicate.
//!
//! Every renumbering in the pass follows one rule: the new index of a
//! surviving entry is the number of surviving entries before it.  `cnt`
//! counts the indices below `n` satisfying a predicate, and `kept` lists
//! them in order; the lemmas here relate the two.

use vstd::prelude::*;

verus! {

/// Number of indices `i` with `0 <= i < n` and `p(i)`.
pub open spec fn cnt(p: spec_fn(int) -> bool, n: int) -> nat
    decreases n,
{
    if n <= 0 {
        0
    } else {
        cnt(p, n - 1) + if p(n - 1) {
            1nat
        } else {
            0nat
        }
    }
}

/// The indices `i` with `0 <= i < n` and `p(i)`, in increasing order.
pub open spec fn kept(p: spec_fn(int) -> bool, n: int) -> Seq<int>
    decreases n,
{
    if n <= 0 {
        Seq::empty()
    } else {
        kept(p, n - 1) + if p(n - 1) {
            seq![n - 1]
        } else {
            Seq::<int>::empty()
        }
    }
}

pub proof fn lemma_cnt_le(p: spec_fn(int) -> bool, i: int, j: int)
    requires
        i <= j,
    ensures
        cnt(p, i) <= cnt(p, j),
    decreases j - i,
{
    if i < j {
        lemma_cnt_le(p, i, j - 1);
    }
}

/// A satisfying index below `n` contributes strictly to the count.
pub proof fn lemma_cnt_lt(p: spec_fn(int) -> bool, i: int, n: int)
    requires
        0 <= i < n,
        p(i),
    ensures
        cnt(p, i) < cnt(p, n),
{
    lemma_cnt_le(p, i + 1, n);
}

pub proof fn lemma_cnt_bound(p: spec_fn(int) -> bool, n: int)
    ensures
        cnt(p, n) <= if n <= 0 { 0 } else { n as nat },
    decreases n,
{
    if n > 0 {
        lemma_cnt_bound(p, n - 1);
    }
}

pub proof fn lemma_kept_len(p: spec_fn(int) -> bool, n: int)
    ensures
        kept(p, n).len() == cnt(p, n),
    decreases n,
{
    if n > 0 {
        lemma_kept_len(p, n - 1);
    }
}

/// Every listed index satisfies the predicate, lies below `n`, and sits at
/// the position given by the running count.
pub proof fn lemma_kept_index(p: spec_fn(int) -> bool, n: int, k: int)
    requires
        0 <= k < kept(p, n).len(),
    ensures
        0 <= kept(p, n)[k] < n,
        p(kept(p, n)[k]),
        cnt(p, kept(p, n)[k]) == k,
    decreases n,
{
    lemma_kept_len(p, n);
    if n > 0 {
        lemma_kept_len(p, n - 1);
        if k < kept(p, n - 1).len() {
            lemma_kept_index(p, n - 1, k);
        }
    }
}

/// A surviving index is found in `kept` at position `cnt(p, i)`.
pub proof fn lemma_kept_at(p: spec_fn(int) -> bool, n: int, i: int)
    requires
        0 <= i < n,
        p(i),
    ensures
        cnt(p, i) < kept(p, n).len(),
        kept(p, n)[cnt(p, i) as int] == i,
    decreases n,
{
    lemma_kept_len(p, n);
    lemma_cnt_lt(p, i, n);
    if i == n - 1 {
        lemma_kept_len(p, n - 1);
    } else {
        lemma_kept_at(p, n - 1, i);
    }
}

/// Two predicates that agree below `n` count alike.
pub proof fn lemma_cnt_ext(p: spec_fn(int) -> bool, q: spec_fn(int) -> bool, n: int)
    requires
        forall|i: int| 0 <= i < n ==> #[trigger] p(i) == #[trigger] q(i),
    ensures
        cnt(p, n) == cnt(q, n),
        kept(p, n) == kept(q, n),
    decreases n,
{
    if n > 0 {
        lemma_cnt_ext(p, q, n - 1);
        assert(kept(p, n) =~= kept(q, n));
    }
}

/// Flipping one index from unsatisfied to satisfied raises the count by
/// one.
pub proof fn lemma_cnt_update(p1: spec_fn(int) -> bool, p2: spec_fn(int) -> bool, i: int, n: int)
    requires
        0 <= i < n,
        !p1(i),
        p2(i),
        forall|j: int| 0 <= j < n && j != i ==> #[trigger] p1(j) == #[trigger] p2(j),
    ensures
        cnt(p2, n) == cnt(p1, n) + 1,
    decreases n,
{
    if i == n - 1 {
        lemma_cnt_ext(p1, p2, n - 1);
    } else {
        lemma_cnt_update(p1, p2, i, n - 1);
    }
}

/// Membership in a sequence after a push.
pub proof fn lemma_push_contains<A>(s: Seq<A>, e: A, x: A)
    ensures
        s.push(e).contains(x) <==> (s.contains(x) || x == e),
{
    if s.contains(x) {
        let i = choose|i: int| 0 <= i < s.len() && s[i] == x;
        assert(s.push(e)[i] == x);
    }
    if x == e {
        assert(s.push(e)[s.len() as int] == x);
    }
    if s.push(e).contains(x) {
        let i = choose|i: int| 0 <= i < s.push(e).len() && s.push(e)[i] == x;
        if i < s.len() {
            assert(s[i] == x);
        }
    }
}

/// Membership in a sequence after dropping its last element.
pub proof fn lemma_drop_last_contains<A>(s: Seq<A>, x: A)
    requires
        s.len() > 0,
    ensures
        s.contains(x) <==> (s.drop_last().contains(x) || x == s.last()),
{
    if s.contains(x) {
        let i = choose|i: int| 0 <= i < s.len() && s[i] == x;
        if i < s.len() - 1 {
            assert(s.drop_last()[i] == x);
        }
    }
    if s.drop_last().contains(x) {
        let i = choose|i: int| 0 <= i < s.drop_last().len() && s.drop_last()[i] == x;
        assert(s[i] == x);
    }
    if x == s.last() {
        assert(s[s.len() - 1] == x);
    }
}

/// One step of the filter: position `i` either joins the kept list or
/// leaves it unchanged.
pub proof fn lemma_kept_step(p: spec_fn(int) -> bool, i: int)
    requires
        0 <= i,
    ensures
        p(i) ==> kept(p, i + 1) == kept(p, i).push(i),
        !p(i) ==> kept(p, i + 1) == kept(p, i),
        cnt(p, i + 1) == cnt(p, i) + (if p(i) {
            1nat
        } else {
            0nat
        }),
{
    if p(i) {
        assert(kept(p, i + 1) =~= kept(p, i).push(i));
    } else {
        assert(kept(p, i + 1) =~= kept(p, i));
    }
}

/// A positive count has a witness.
pub proof fn lemma_cnt_pos(p: spec_fn(int) -> bool, n: int)
    requires
        cnt(p, n) > 0,
    ensures
        exists|i: int| 0 <= i < n && #[trigger] p(i),
    decreases n,
{
    if n > 0 {
        if p(n - 1) {
        } else {
            lemma_cnt_pos(p, n - 1);
        }
    }
}

} // verus!
