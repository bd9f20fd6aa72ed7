//! Sums over the paths of a listing, taken in any order.

use crate::listing::distinct;
use vstd::prelude::*;

verus! {

/// The sum of what `weight` gives for the first `n` of `paths`.
pub open spec fn weighted(paths: Seq<Seq<char>>, weight: spec_fn(Seq<char>) -> nat, n: nat) -> nat
    decreases n,
{
    if n == 0 || n > paths.len() {
        0
    } else {
        weighted(paths, weight, (n - 1) as nat) + weight(paths[n - 1])
    }
}

/// Paths that agree in their first `n` places have the same sum there.
pub proof fn lemma_weighted_prefix(
    left: Seq<Seq<char>>,
    right: Seq<Seq<char>>,
    weight: spec_fn(Seq<char>) -> nat,
    n: nat,
)
    requires
        n <= left.len(),
        n <= right.len(),
        forall|i: int| 0 <= i < n ==> #[trigger] left[i] == right[i],
    ensures
        weighted(left, weight, n) == weighted(right, weight, n),
    decreases n,
{
    if n > 0 {
        lemma_weighted_prefix(left, right, weight, (n - 1) as nat);
        assert(left[n - 1] == right[n - 1]);
    }
}

/// Taking one path out of the paths takes its weight out of their sum.
pub proof fn lemma_weighted_remove(
    paths: Seq<Seq<char>>,
    weight: spec_fn(Seq<char>) -> nat,
    at: int,
)
    requires
        0 <= at < paths.len(),
    ensures
        weighted(paths, weight, paths.len()) == weighted(
            paths.remove(at),
            weight,
            (paths.len() - 1) as nat,
        ) + weight(paths[at]),
    decreases paths.len(),
{
    let n = paths.len();
    let rest = paths.remove(at);
    if at == n - 1 {
        lemma_weighted_prefix(paths, rest, weight, (n - 1) as nat);
    } else {
        let shorter = paths.drop_last();
        lemma_weighted_remove(shorter, weight, at);
        lemma_weighted_prefix(paths, shorter, weight, (n - 1) as nat);
        assert(shorter.remove(at) =~= rest.drop_last());
        lemma_weighted_prefix(rest, shorter.remove(at), weight, (n - 2) as nat);
        assert(rest[n - 2] == paths[n - 1]);
        assert(shorter[at] == paths[at]);
    }
}

/// A sum does not depend on the order of the paths, nor on paths that weigh
/// nothing: where no path occurs twice on either side, every path of `some`
/// is among `all`, and every path of `all` that is not among `some` weighs
/// nothing, both sides have the same sum.
pub proof fn lemma_weighted_same(
    all: Seq<Seq<char>>,
    some: Seq<Seq<char>>,
    weight: spec_fn(Seq<char>) -> nat,
)
    requires
        distinct(all),
        distinct(some),
        forall|i: int| 0 <= i < some.len() ==> all.contains(#[trigger] some[i]),
        forall|i: int|
            0 <= i < all.len() ==> some.contains(#[trigger] all[i]) || weight(all[i]) == 0,
    ensures
        weighted(all, weight, all.len()) == weighted(some, weight, some.len()),
    decreases all.len(),
{
    if all.len() == 0 {
        if some.len() > 0 {
            assert(all.contains(some[0]));
        }
    } else {
        let last = all.last();
        let shorter = all.drop_last();
        lemma_weighted_prefix(all, shorter, weight, shorter.len());
        assert forall|i: int, j: int| 0 <= i < j < shorter.len() implies #[trigger] shorter[i]
            != #[trigger] shorter[j] by {
            assert(all[i] != all[j]);
        }
        if some.contains(last) {
            let at = choose|at: int| 0 <= at < some.len() && some[at] == last;
            let rest = some.remove(at);
            lemma_weighted_remove(some, weight, at);
            assert forall|i: int, j: int| 0 <= i < j < rest.len() implies #[trigger] rest[i]
                != #[trigger] rest[j] by {
                let a = if i < at { i } else { i + 1 };
                let b = if j < at { j } else { j + 1 };
                assert(some[a] != some[b]);
            }
            assert forall|i: int| 0 <= i < rest.len() implies shorter.contains(
                #[trigger] rest[i],
            ) by {
                let a = if i < at { i } else { i + 1 };
                assert(rest[i] == some[a]);
                if a < at {
                    assert(some[a] != some[at]);
                } else {
                    assert(some[at] != some[a]);
                }
                assert(all.contains(some[a]));
                let k = choose|k: int| 0 <= k < all.len() && all[k] == some[a];
                assert(shorter[k] == some[a]);
            }
            assert forall|i: int| 0 <= i < shorter.len() implies rest.contains(
                #[trigger] shorter[i],
            ) || weight(shorter[i]) == 0 by {
                assert(all[i] == shorter[i]);
                assert(all[i] != all[all.len() - 1]);
                if some.contains(all[i]) {
                    let k = choose|k: int| 0 <= k < some.len() && some[k] == all[i];
                    let r = if k < at { k } else { k - 1 };
                    assert(rest[r] == all[i]);
                }
            }
            lemma_weighted_same(shorter, rest, weight);
        } else {
            assert(some.contains(all[all.len() - 1]) || weight(all[all.len() - 1]) == 0);
            assert forall|i: int| 0 <= i < some.len() implies shorter.contains(
                #[trigger] some[i],
            ) by {
                assert(all.contains(some[i]));
                let k = choose|k: int| 0 <= k < all.len() && all[k] == some[i];
                if k == all.len() - 1 {
                    assert(some.contains(last));
                }
                assert(shorter[k] == some[i]);
            }
            assert forall|i: int| 0 <= i < shorter.len() implies some.contains(
                #[trigger] shorter[i],
            ) || weight(shorter[i]) == 0 by {
                assert(all[i] == shorter[i]);
            }
            lemma_weighted_same(shorter, some, weight);
        }
    }
}

/// Weights that agree on the paths give the same sum.
pub proof fn lemma_weighted_alike(
    paths: Seq<Seq<char>>,
    left: spec_fn(Seq<char>) -> nat,
    right: spec_fn(Seq<char>) -> nat,
    n: nat,
)
    requires
        n <= paths.len(),
        forall|i: int| 0 <= i < n ==> left(#[trigger] paths[i]) == right(paths[i]),
    ensures
        weighted(paths, left, n) == weighted(paths, right, n),
    decreases n,
{
    if n > 0 {
        lemma_weighted_alike(paths, left, right, (n - 1) as nat);
    }
}

} // verus!
