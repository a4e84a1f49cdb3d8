//! Index selections: which positions of a sequence satisfy a predicate, in order.
use vstd::prelude::*;

verus! {

/// The positions below `n` satisfying `p`, ascending.
pub open spec fn select(n: nat, p: spec_fn(int) -> bool) -> Seq<int>
    decreases n,
{
    if n == 0 {
        Seq::empty()
    } else {
        let s = select((n - 1) as nat, p);
        if p(n - 1) {
            s.push(n - 1)
        } else {
            s
        }
    }
}

/// The last position below `n` satisfying `p`.
pub open spec fn last_match(n: nat, p: spec_fn(int) -> bool) -> Option<int>
    decreases n,
{
    if n == 0 {
        None
    } else if p(n - 1) {
        Some(n - 1)
    } else {
        last_match((n - 1) as nat, p)
    }
}

pub proof fn lemma_select(n: nat, p: spec_fn(int) -> bool)
    ensures
        forall|k: int| 0 <= k < select(n, p).len() ==> 0 <= #[trigger] select(n, p)[k] < n && p(select(n, p)[k]),
        forall|i: int| 0 <= i < n && p(i) ==> #[trigger] select(n, p).contains(i),
        forall|a: int, b: int| 0 <= a < b < select(n, p).len() ==> select(n, p)[a] < select(n, p)[b],
        select(n, p).len() <= n,
    decreases n,
{
    if n > 0 {
        lemma_select((n - 1) as nat, p);
        let s = select((n - 1) as nat, p);
        if p(n - 1) {
            assert forall|i: int| 0 <= i < n && p(i) implies #[trigger] select(n, p).contains(i) by {
                if i < n - 1 {
                    assert(s.contains(i));
                    let k = choose|k: int| 0 <= k < s.len() && s[k] == i;
                    assert(select(n, p)[k] == i);
                } else {
                    assert(select(n, p)[s.len() as int] == i);
                }
            }
        } else {
            assert forall|i: int| 0 <= i < n && p(i) implies #[trigger] select(n, p).contains(i) by {
                assert(s.contains(i));
            }
        }
    }
}

/// A selection is empty exactly when nothing below `n` satisfies the predicate.
pub proof fn lemma_select_empty(n: nat, p: spec_fn(int) -> bool)
    ensures
        select(n, p).len() == 0 <==> forall|i: int| 0 <= i < n ==> !#[trigger] p(i),
{
    lemma_select(n, p);
    if select(n, p).len() > 0 {
        assert(p(select(n, p)[0]));
    }
    if exists|i: int| 0 <= i < n && #[trigger] p(i) {
        let i = choose|i: int| 0 <= i < n && #[trigger] p(i);
        assert(select(n, p).contains(i));
    }
}

/// Predicates that agree below `n` select the same positions.
pub proof fn lemma_select_ext(n: nat, p: spec_fn(int) -> bool, q: spec_fn(int) -> bool)
    requires
        forall|i: int| 0 <= i < n ==> #[trigger] p(i) == q(i),
    ensures
        select(n, p) == select(n, q),
    decreases n,
{
    if n > 0 {
        lemma_select_ext((n - 1) as nat, p, q);
    }
}

pub proof fn lemma_last_match(n: nat, p: spec_fn(int) -> bool)
    ensures
        last_match(n, p) matches Some(i) ==> 0 <= i < n && p(i) && forall|j: int| i < j < n ==> !#[trigger] p(j),
        last_match(n, p) is None ==> forall|j: int| 0 <= j < n ==> !#[trigger] p(j),
    decreases n,
{
    if n > 0 {
        lemma_last_match((n - 1) as nat, p);
    }
}

pub proof fn lemma_last_match_ext(n: nat, p: spec_fn(int) -> bool, q: spec_fn(int) -> bool)
    requires
        forall|i: int| 0 <= i < n ==> #[trigger] p(i) == q(i),
    ensures
        last_match(n, p) == last_match(n, q),
    decreases n,
{
    if n > 0 {
        lemma_last_match_ext((n - 1) as nat, p, q);
    }
}

/// The same positions as `usize`s.
pub open spec fn as_ints(v: Seq<usize>) -> Seq<int> {
    v.map_values(|x: usize| x as int)
}

pub proof fn lemma_as_ints_push(v: Seq<usize>, x: usize)
    ensures
        as_ints(v.push(x)) == as_ints(v).push(x as int),
{
    assert(as_ints(v.push(x)) =~= as_ints(v).push(x as int));
}

} // verus!

verus! {

/// The first position below `n` satisfying `p`.
pub open spec fn first_match(n: nat, p: spec_fn(int) -> bool) -> Option<int>
    decreases n,
{
    if n == 0 {
        None
    } else {
        match first_match((n - 1) as nat, p) {
            Some(i) => Some(i),
            None => if p(n - 1) {
                Some(n - 1)
            } else {
                None
            },
        }
    }
}

pub proof fn lemma_first_match(n: nat, p: spec_fn(int) -> bool)
    ensures
        first_match(n, p) matches Some(i) ==> 0 <= i < n && p(i) && forall|j: int| 0 <= j < i ==> !#[trigger] p(j),
        first_match(n, p) is None ==> forall|j: int| 0 <= j < n ==> !#[trigger] p(j),
    decreases n,
{
    if n > 0 {
        lemma_first_match((n - 1) as nat, p);
    }
}

/// How many entries of `s` are `true`.
pub open spec fn count_true(s: Seq<bool>) -> nat
    decreases s.len(),
{
    if s.len() == 0 {
        0
    } else {
        count_true(s.drop_last()) + if s.last() {
            1nat
        } else {
            0nat
        }
    }
}

pub proof fn lemma_count_true_bound(s: Seq<bool>)
    ensures
        count_true(s) <= s.len(),
    decreases s.len(),
{
    if s.len() > 0 {
        lemma_count_true_bound(s.drop_last());
    }
}

pub proof fn lemma_count_true_set(s: Seq<bool>, i: int)
    requires
        0 <= i < s.len(),
        !s[i],
    ensures
        count_true(s.update(i, true)) == count_true(s) + 1,
    decreases s.len(),
{
    let t = s.update(i, true);
    if i == s.len() - 1 {
        assert(t.drop_last() =~= s.drop_last());
    } else {
        assert(t.drop_last() =~= s.drop_last().update(i, true));
        lemma_count_true_set(s.drop_last(), i);
    }
}

} // verus!
