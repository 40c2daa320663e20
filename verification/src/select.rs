//! Index lists: the numbers below a bound that pass a test, in order.

use vstd::prelude::*;

verus! {

/// The numbers below `n` for which `keep` holds, in ascending order.
pub open spec fn select(n: nat, keep: spec_fn(int) -> bool) -> Seq<usize>
    decreases n,
{
    if n == 0 {
        Seq::empty()
    } else {
        let below = select((n - 1) as nat, keep);
        if keep(n - 1) {
            below.push((n - 1) as usize)
        } else {
            below
        }
    }
}

/// `numbers` ascend, so none occurs twice.
pub open spec fn ascending(numbers: Seq<usize>) -> bool {
    forall|k: int, l: int|
        0 <= k < l < numbers.len() ==> #[trigger] numbers[k] < #[trigger] numbers[l]
}

/// A selection holds exactly the numbers that pass, each once, in order.
pub proof fn lemma_select(n: nat, keep: spec_fn(int) -> bool)
    requires
        n <= usize::MAX,
    ensures
        ascending(select(n, keep)),
        select(n, keep).len() <= n,
        forall|k: int|
            0 <= k < select(n, keep).len() ==> (#[trigger] select(n, keep)[k]) < n && keep(
                select(n, keep)[k] as int,
            ),
        forall|i: int| 0 <= i < n && #[trigger] keep(i) ==> select(n, keep).contains(i as usize),
    decreases n,
{
    if n > 0 {
        let below = select((n - 1) as nat, keep);
        lemma_select((n - 1) as nat, keep);
        let all = select(n, keep);
        assert forall|k: int| 0 <= k < all.len() implies (#[trigger] all[k]) < n && keep(
            all[k] as int,
        ) by {
            if k < below.len() {
                assert(all[k] == below[k]);
            }
        }
        assert forall|i: int| 0 <= i < n && #[trigger] keep(i) implies all.contains(i as usize) by {
            if i < n - 1 {
                assert(below.contains(i as usize));
                let k = choose|k: int| 0 <= k < below.len() && below[k] == i as usize;
                assert(all[k] == i as usize);
            } else {
                assert(all[below.len() as int] == i as usize);
            }
        }
        assert forall|k: int, l: int| 0 <= k < l < all.len() implies #[trigger] all[k]
            < #[trigger] all[l] by {
            assert(all[k] == below[k]);
            if l < below.len() {
                assert(all[l] == below[l]);
            }
        }
    }
}

/// Ascending lists of the same numbers are the same list.
pub proof fn lemma_ascending_unique(a: Seq<usize>, b: Seq<usize>)
    requires
        ascending(a),
        ascending(b),
        forall|x: usize| #[trigger] a.contains(x) <==> b.contains(x),
    ensures
        a == b,
    decreases a.len(),
{
    if a.len() == 0 {
        if b.len() > 0 {
            assert(b.contains(b[0]));
            assert(a.contains(b[0]));
        }
        assert(a =~= b);
    } else {
        let x = a.last();
        assert(a.contains(x));
        let k = choose|k: int| 0 <= k < b.len() && b[k] == x;
        let y = b.last();
        assert(b.contains(y) && a.contains(y));
        let l = choose|l: int| 0 <= l < a.len() && a[l] == y;
        assert(x == y) by {
            if k < b.len() - 1 {
                assert(b[k] < b[b.len() - 1]);
            }
            if l < a.len() - 1 {
                assert(a[l] < a[a.len() - 1]);
            }
        }
        let (a1, b1) = (a.drop_last(), b.drop_last());
        assert forall|z: usize| #[trigger] a1.contains(z) implies b1.contains(z) by {
            let i = choose|i: int| 0 <= i < a1.len() && a1[i] == z;
            assert(a[i] < a[a.len() - 1]);
            assert(a.contains(a[i]) && b.contains(z));
            let j = choose|j: int| 0 <= j < b.len() && b[j] == z;
            assert(b1[j] == z);
        }
        assert forall|z: usize| #[trigger] b1.contains(z) implies a1.contains(z) by {
            let j = choose|j: int| 0 <= j < b1.len() && b1[j] == z;
            assert(b[j] < b[b.len() - 1]);
            assert(b.contains(b[j]) && a.contains(z));
            let i = choose|i: int| 0 <= i < a.len() && a[i] == z;
            assert(a1[i] == z);
        }
        lemma_ascending_unique(a1, b1);
        assert(a =~= a1.push(x) && b =~= b1.push(y));
    }
}

/// Tests that agree below the bound select the same numbers.
pub proof fn lemma_select_congruent(
    n: nat,
    keep: spec_fn(int) -> bool,
    other: spec_fn(int) -> bool,
)
    requires
        forall|i: int| 0 <= i < n ==> #[trigger] keep(i) == other(i),
    ensures
        select(n, keep) == select(n, other),
    decreases n,
{
    if n > 0 {
        lemma_select_congruent((n - 1) as nat, keep, other);
        assert(keep(n - 1) == other(n - 1));
    }
}

/// A stricter test selects no more numbers.
pub proof fn lemma_select_fewer(n: nat, strict: spec_fn(int) -> bool, keep: spec_fn(int) -> bool)
    requires
        forall|i: int| 0 <= i < n && #[trigger] strict(i) ==> keep(i),
    ensures
        select(n, strict).len() <= select(n, keep).len(),
    decreases n,
{
    if n > 0 {
        lemma_select_fewer((n - 1) as nat, strict, keep);
        if strict(n - 1) {
            assert(keep(n - 1));
        }
    }
}

/// A larger bound selects no fewer numbers.
pub proof fn lemma_select_prefix(a: nat, b: nat, keep: spec_fn(int) -> bool)
    requires
        a <= b,
    ensures
        select(a, keep).len() <= select(b, keep).len(),
    decreases b,
{
    if a < b {
        lemma_select_prefix(a, (b - 1) as nat, keep);
    }
}

/// A test that all numbers pass selects all of them.
pub proof fn lemma_select_all(n: nat, keep: spec_fn(int) -> bool)
    requires
        n <= usize::MAX,
        forall|i: int| 0 <= i < n ==> #[trigger] keep(i),
    ensures
        select(n, keep).len() == n,
        forall|i: int| 0 <= i < n ==> #[trigger] select(n, keep)[i] == i,
    decreases n,
{
    if n > 0 {
        lemma_select_all((n - 1) as nat, keep);
        assert(keep(n - 1));
    }
}

/// The members of `numbers` at the given places.
pub open spec fn at_places(numbers: Seq<usize>, places: Seq<usize>) -> Seq<usize> {
    Seq::new(places.len(), |k: int| numbers[places[k] as int])
}

/// Selecting among selected numbers is selecting by both tests.
pub proof fn lemma_select_again(
    n: nat,
    keep: spec_fn(int) -> bool,
    again: spec_fn(int) -> bool,
    within: spec_fn(int) -> bool,
    both: spec_fn(int) -> bool,
)
    requires
        n <= usize::MAX,
        forall|k: int|
            0 <= k < select(n, keep).len() ==> #[trigger] within(k) == again(
                select(n, keep)[k] as int,
            ),
        forall|i: int| 0 <= i < n ==> #[trigger] both(i) == (keep(i) && again(i)),
    ensures
        at_places(select(n, keep), select(select(n, keep).len(), within)) == select(n, both),
    decreases n,
{
    let kept = select(n, keep);
    let inner = select(kept.len(), within);
    if n == 0 {
        assert(at_places(kept, inner) =~= select(n, both));
    } else {
        let m = (n - 1) as nat;
        let before = select(m, keep);
        lemma_select(m, keep);
        assert forall|k: int| 0 <= k < before.len() implies #[trigger] within(k) == again(
            before[k] as int,
        ) by {
            assert(kept[k] == before[k]);
        }
        lemma_select_again(m, keep, again, within, both);
        lemma_select(before.len(), within);
        let inner_before = select(before.len(), within);
        assert(both(n - 1) == (keep(n - 1) && again(n - 1)));
        assert forall|k: int| 0 <= k < inner_before.len() implies kept[inner_before[k] as int]
            == before[#[trigger] inner_before[k] as int] by {}
        if keep(n - 1) {
            assert(kept[before.len() as int] == n - 1);
            assert(within(before.len() as int) == again(n - 1));
        }
        assert(at_places(kept, inner) =~= select(n, both));
    }
}

} // verus!
