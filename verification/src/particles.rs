use vstd::prelude::*;

verus! {

/// The indexes `i < n` with `dead[i]`, in increasing order.
pub open spec fn flagged(dead: Seq<bool>, n: nat) -> Seq<usize>
    decreases n,
{
    if n == 0 {
        Seq::<usize>::empty()
    } else {
        let f = flagged(dead, (n - 1) as nat);
        if dead[n - 1] {
            f.push((n - 1) as usize)
        } else {
            f
        }
    }
}

/// The items among the first `n` whose flag in `dead` is not set, in order.
pub open spec fn kept<T>(items: Seq<T>, dead: Seq<bool>, n: nat) -> Seq<T>
    decreases n,
{
    if n == 0 {
        Seq::<T>::empty()
    } else {
        let k = kept(items, dead, (n - 1) as nat);
        if dead[n - 1] {
            k
        } else {
            k.push(items[n - 1])
        }
    }
}

/// The items whose flag in `dead` is not set, in their order.
pub open spec fn survivors<T>(items: Seq<T>, dead: Seq<bool>) -> Seq<T> {
    kept(items, dead, items.len())
}

proof fn lemma_flagged_basic(dead: Seq<bool>, n: nat)
    requires
        n <= dead.len(),
        n <= usize::MAX,
    ensures
        flagged(dead, n).len() <= n,
        forall|j: int|
            0 <= j < flagged(dead, n).len() ==> (#[trigger] flagged(dead, n)[j]) < n && dead[flagged(
                dead,
                n,
            )[j] as int],
        forall|j1: int, j2: int|
            0 <= j1 < j2 < flagged(dead, n).len() ==> #[trigger] flagged(dead, n)[j1]
                < #[trigger] flagged(dead, n)[j2],
    decreases n,
{
    if n > 0 {
        lemma_flagged_basic(dead, (n - 1) as nat);
    }
}

proof fn lemma_flagged_prefix(dead: Seq<bool>, q: nat, n: nat)
    requires
        q <= n <= dead.len(),
        n <= usize::MAX,
    ensures
        flagged(dead, q).len() <= flagged(dead, n).len(),
        flagged(dead, n).take(flagged(dead, q).len() as int) == flagged(dead, q),
        forall|j: int|
            flagged(dead, q).len() <= j < flagged(dead, n).len() ==> (#[trigger] flagged(dead, n)[j])
                >= q,
    decreases n,
{
    if n == q {
        assert(flagged(dead, n).take(flagged(dead, q).len() as int) =~= flagged(dead, q));
    } else {
        lemma_flagged_prefix(dead, q, (n - 1) as nat);
        let f = flagged(dead, (n - 1) as nat);
        if dead[n - 1] {
            assert(f.push((n - 1) as usize).take(flagged(dead, q).len() as int) =~= f.take(
                flagged(dead, q).len() as int,
            ));
        }
    }
}

proof fn lemma_kept_len<T>(items: Seq<T>, dead: Seq<bool>, n: nat)
    requires
        n <= dead.len(),
        n <= items.len(),
    ensures
        kept(items, dead, n).len() + flagged(dead, n).len() == n,
    decreases n,
{
    if n > 0 {
        lemma_kept_len(items, dead, (n - 1) as nat);
    }
}

proof fn lemma_kept_flat<T>(items: Seq<T>, dead: Seq<bool>, a: nat, b: nat)
    requires
        a <= b <= dead.len(),
        b <= items.len(),
        b <= usize::MAX,
        flagged(dead, a).len() == flagged(dead, b).len(),
    ensures
        kept(items, dead, b) == kept(items, dead, a) + items.subrange(a as int, b as int),
    decreases b,
{
    if b == a {
        assert(kept(items, dead, b) =~= kept(items, dead, a) + items.subrange(a as int, b as int));
    } else {
        lemma_flagged_prefix(dead, a, (b - 1) as nat);
        lemma_flagged_prefix(dead, (b - 1) as nat, b);
        lemma_kept_flat(items, dead, a, (b - 1) as nat);
        assert(!dead[b - 1]);
        assert(kept(items, dead, b) =~= kept(items, dead, a) + items.subrange(a as int, b as int));
    }
}

proof fn lemma_kept_extremes<T>(items: Seq<T>, dead: Seq<bool>, n: nat)
    requires
        n <= dead.len(),
        n <= items.len(),
    ensures
        (forall|i: int| 0 <= i < n ==> !dead[i]) ==> kept(items, dead, n) == items.take(n as int),
        (forall|i: int| 0 <= i < n ==> dead[i]) ==> kept(items, dead, n).len() == 0,
    decreases n,
{
    if n > 0 {
        lemma_kept_extremes(items, dead, (n - 1) as nat);
        assert(items.take(n as int).drop_last() =~= items.take(n - 1));
        assert(items.take(n as int) =~= items.take(n - 1).push(items[n - 1]));
    } else {
        assert(items.take(0) =~= Seq::<T>::empty());
    }
}

/// Discarding removes one item per set flag; with no flag set nothing goes,
/// with every flag set everything goes.
pub proof fn lemma_survivors<T>(items: Seq<T>, dead: Seq<bool>)
    requires
        items.len() == dead.len(),
    ensures
        survivors(items, dead).len() == items.len() - flagged(dead, dead.len()).len(),
        (forall|i: int| 0 <= i < dead.len() ==> !dead[i]) ==> survivors(items, dead) == items,
        (forall|i: int| 0 <= i < dead.len() ==> dead[i]) ==> survivors(items, dead).len() == 0,
{
    lemma_kept_len(items, dead, items.len());
    lemma_kept_extremes(items, dead, items.len());
    assert(items.take(items.len() as int) =~= items);
}

/// The indexes of the set flags, in increasing order.
pub fn flagged_indexes(dead: &Vec<bool>) -> (r: Vec<usize>)
    ensures
        r@ == flagged(dead@, dead@.len()),
{
    let mut r: Vec<usize> = Vec::new();
    let mut i: usize = 0;
    while i < dead.len()
        invariant
            i <= dead@.len(),
            r@ == flagged(dead@, i as nat),
        decreases dead@.len() - i,
    {
        if dead[i] {
            r.push(i);
        }
        i = i + 1;
    }
    r
}

/// Removes the items whose flag in `dead` is set, keeping the others in
/// order: the flagged indexes are collected first, then removed from the
/// lowest up, each shifted down by the number removed before it.
pub fn discard_flagged<T>(items: &mut Vec<T>, dead: &Vec<bool>)
    requires
        old(items)@.len() == dead@.len(),
    ensures
        final(items)@ == survivors(old(items)@, dead@),
{
    let ghost old_items = items@;
    let ghost n = dead@.len();
    let len = dead.len();
    assert(n == len);
    let indexes = flagged_indexes(dead);
    proof {
        lemma_flagged_basic(dead@, n);
    }
    let mut index: usize = 0;
    let mut k: usize = 0;
    let ghost mut q: nat = 0;
    assert(items@ =~= kept(old_items, dead@, 0) + old_items.skip(0));
    while k < indexes.len()
        invariant
            n == dead@.len(),
            n == old_items.len(),
            n <= usize::MAX,
            indexes@ == flagged(dead@, n),
            indexes@.len() <= n,
            forall|j: int| 0 <= j < indexes@.len() ==> (#[trigger] indexes@[j]) < n && dead@[indexes@[j] as int],
            forall|j1: int, j2: int|
                0 <= j1 < j2 < indexes@.len() ==> #[trigger] indexes@[j1] < #[trigger] indexes@[j2],
            k <= indexes@.len(),
            index == k,
            q <= n,
            k == 0 ==> q == 0,
            k > 0 ==> q == indexes@[k - 1] + 1,
            flagged(dead@, q).len() == k,
            items@ == kept(old_items, dead@, q) + old_items.skip(q as int),
        decreases indexes@.len() - k,
    {
        let i = indexes[k];
        proof {
            lemma_flagged_prefix(dead@, q, n);
            lemma_flagged_prefix(dead@, i as nat, n);
            let ci = flagged(dead@, i as nat).len();
            if k > 0 {
                assert(indexes@[k - 1] < indexes@[k as int]);
            }
            assert(q <= i);
            lemma_flagged_prefix(dead@, q, i as nat);
            lemma_flagged_basic(dead@, i as nat);
            if ci > k {
                assert(flagged(dead@, i as nat)[k as int] == indexes@[k as int]);
                assert(false);
            }
            if ci < k {
                assert(indexes@[ci as int] >= i);
                assert(indexes@[ci as int] < indexes@[k as int]);
                assert(false);
            }
            lemma_kept_flat(old_items, dead@, q, i as nat);
            lemma_kept_len(old_items, dead@, q);
        }
        let ghost pre = items@;
        items.remove(i - index);
        proof {
            let kq = kept(old_items, dead@, q);
            assert(pre[i - index] == old_items[i as int]);
            assert(items@ =~= kq + old_items.subrange(q as int, i as int) + old_items.skip(i + 1));
            assert(kept(old_items, dead@, (i + 1) as nat) == kept(old_items, dead@, i as nat));
            assert(flagged(dead@, (i + 1) as nat).len() == k + 1);
            q = (i + 1) as nat;
        }
        index = index + 1;
        k = k + 1;
    }
    proof {
        lemma_flagged_prefix(dead@, q, n);
        lemma_kept_flat(old_items, dead@, q, n);
        assert(old_items.skip(q as int) =~= old_items.subrange(q as int, n as int));
    }
}

} // verus!
