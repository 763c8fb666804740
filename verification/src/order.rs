//! Sorting: texts by their characters, and items by a number, highest first.

use vstd::prelude::*;

use crate::text;
use crate::views;

verus! {

broadcast use {crate::views::group_all, crate::views::group_texts};

/// The first text does not come behind the second in the order of their characters.
pub open spec fn not_after(a: Seq<char>, b: Seq<char>) -> bool
    decreases a.len(),
{
    if a.len() == 0 {
        true
    } else if b.len() == 0 {
        false
    } else if a[0] == b[0] {
        not_after(a.skip(1), b.skip(1))
    } else {
        (a[0] as int) < (b[0] as int)
    }
}

/// See [`not_after`].
pub fn in_order(a: &str, b: &str) -> (r: bool)
    ensures
        r == not_after(a@, b@),
{
    let x = text::chars_of(a);
    let y = text::chars_of(b);
    let mut i: usize = 0;
    assert(a@.skip(0) =~= a@ && b@.skip(0) =~= b@);
    while i < x.len() && i < y.len()
        invariant
            x@ == a@,
            y@ == b@,
            i <= x@.len(),
            i <= y@.len(),
            not_after(a@, b@) == not_after(a@.skip(i as int), b@.skip(i as int)),
        decreases x@.len() - i,
    {
        proof {
            assert(a@.skip(i as int)[0] == a@[i as int]);
            assert(b@.skip(i as int)[0] == b@[i as int]);
            assert(a@.skip(i as int).skip(1) =~= a@.skip(i + 1));
            assert(b@.skip(i as int).skip(1) =~= b@.skip(i + 1));
        }
        if x[i] != y[i] {
            return x[i] < y[i];
        }
        i = i + 1;
    }
    i >= x.len()
}

/// The place of a text among sorted ones: behind those that do not come after it.
pub open spec fn place(s: Seq<Seq<char>>, x: Seq<char>, i: int) -> int
    decreases s.len() - i,
{
    if i < 0 || i >= s.len() || !not_after(s[i], x) {
        i
    } else {
        place(s, x, i + 1)
    }
}

/// Texts put in order, each in its place among those before it.
pub open spec fn sorted(s: Seq<Seq<char>>) -> Seq<Seq<char>>
    decreases s.len(),
{
    if s.len() == 0 {
        Seq::empty()
    } else {
        let rest = sorted(s.drop_last());
        rest.insert(place(rest, s.last(), 0), s.last())
    }
}

proof fn lemma_place(s: Seq<Seq<char>>, x: Seq<char>, i: int)
    requires
        0 <= i <= s.len(),
    ensures
        i <= place(s, x, i) <= s.len(),
        forall|j: int| i <= j < place(s, x, i) ==> not_after(#[trigger] s[j], x),
        place(s, x, i) < s.len() ==> !not_after(s[place(s, x, i)], x),
    decreases s.len() - i,
{
    if i < s.len() && not_after(s[i], x) {
        lemma_place(s, x, i + 1);
    }
}

/// Sort texts. See [`sorted`].
pub fn sort_texts(v: &[String]) -> (r: Vec<String>)
    ensures
        views::texts(r@) == sorted(views::texts(v@)),
{
    let ghost vv = views::texts(v@);
    let mut out: Vec<String> = Vec::new();
    for i in 0..v.len()
        invariant
            vv == views::texts(v@),
            views::texts(out@) == sorted(vv.take(i as int)),
    {
        proof {
            views::lemma_take_step(vv, i as int);
            assert(vv[i as int] == v@[i as int]@);
        }
        let ghost before = views::texts(out@);
        let ghost x = v@[i as int]@;
        let mut k: usize = 0;
        assert(before.len() == out@.len());
        while k < out.len() && in_order(out[k].as_str(), v[i].as_str())
            invariant
                i < v@.len(),
                x == v@[i as int]@,
                before == views::texts(out@),
                before.len() == out@.len(),
                k <= out@.len(),
                place(before, x, k as int) == place(before, x, 0),
            decreases out@.len() - k,
        {
            assert(before[k as int] == out@[k as int]@);
            k = k + 1;
        }
        proof {
            if k < out@.len() {
                assert(before[k as int] == out@[k as int]@);
            }
        }
        let item = v[i].clone();
        let ghost was = out@;
        out.insert(k, item);
        proof {
            assert(views::texts(out@) =~= before.insert(k as int, x));
        }
    }
    proof {
        views::lemma_take_all(vv);
    }
    out
}

/// Numbers of items, put in order of a key, highest first. Items of the same key stay in
/// the order they came in.
pub open spec fn key_place(keys: Seq<i128>, order: Seq<int>, x: int, i: int) -> int
    decreases order.len() - i,
{
    if i < 0 || i >= order.len() || keys[order[i]] < keys[x] {
        i
    } else {
        key_place(keys, order, x, i + 1)
    }
}

/// The positions of the first `n` keys, highest key first.
pub open spec fn by_key(keys: Seq<i128>, n: int) -> Seq<int>
    decreases n,
{
    if n <= 0 {
        Seq::empty()
    } else {
        let rest = by_key(keys, n - 1);
        rest.insert(key_place(keys, rest, n - 1, 0), n - 1)
    }
}

/// Positions as mathematical integers.
pub open spec fn positions(v: Seq<usize>) -> Seq<int> {
    v.map_values(|i: usize| i as int)
}

/// The positions of all keys, highest key first. See [`by_key`].
pub fn order_by_key(keys: &[i128]) -> (r: Vec<usize>)
    ensures
        positions(r@) == by_key(keys@, keys@.len() as int),
        forall|i: int| 0 <= i < r@.len() ==> #[trigger] r@[i] < keys@.len(),
        r@.len() == keys@.len(),
{
    let mut out: Vec<usize> = Vec::new();
    assert(positions(out@) =~= Seq::empty());
    for i in 0..keys.len()
        invariant
            positions(out@) == by_key(keys@, i as int),
            forall|j: int| 0 <= j < out@.len() ==> #[trigger] out@[j] < i,
            out@.len() == i,
    {
        let ghost before = positions(out@);
        let mut k: usize = 0;
        while k < out.len() && !(keys[out[k]] < keys[i])
            invariant
                i < keys@.len(),
                before == positions(out@),
                k <= out@.len(),
                forall|j: int| 0 <= j < out@.len() ==> #[trigger] out@[j] < i,
                key_place(keys@, before, i as int, k as int) == key_place(
                    keys@,
                    before,
                    i as int,
                    0,
                ),
            decreases out@.len() - k,
        {
            assert(before[k as int] == out@[k as int]);
            k = k + 1;
        }
        proof {
            if k < out@.len() {
                assert(before[k as int] == out@[k as int]);
            }
        }
        let ghost was = out@;
        out.insert(k, i);
        proof {
            assert(positions(out@) =~= before.insert(k as int, i as int));
            assert forall|j: int| 0 <= j < out@.len() implies #[trigger] out@[j] < i + 1 by {
                if j < k {
                    assert(out@[j] == was[j]);
                } else if j > k {
                    assert(out@[j] == was[j - 1]);
                }
            }
        }
    }
    out
}

// ── Laws ─────────────────────────────────────────────────────────────────

/// Each text of a list does not come behind the later ones.
pub open spec fn is_sorted(s: Seq<Seq<char>>) -> bool {
    forall|i: int, j: int| 0 <= i < j < s.len() ==> not_after(#[trigger] s[i], #[trigger] s[j])
}

proof fn lemma_total(a: Seq<char>, b: Seq<char>)
    ensures
        not_after(a, b) || not_after(b, a),
    decreases a.len(),
{
    if a.len() > 0 && b.len() > 0 && a[0] == b[0] {
        lemma_total(a.skip(1), b.skip(1));
    }
}

proof fn lemma_transitive(a: Seq<char>, b: Seq<char>, c: Seq<char>)
    requires
        not_after(a, b),
        not_after(b, c),
    ensures
        not_after(a, c),
    decreases a.len(),
{
    if a.len() > 0 && b.len() > 0 && c.len() > 0 && a[0] == b[0] && b[0] == c[0] {
        lemma_transitive(a.skip(1), b.skip(1), c.skip(1));
    }
}

/// Sorting puts the texts in order and neither adds nor loses one.
pub proof fn law_sorted(s: Seq<Seq<char>>)
    ensures
        is_sorted(sorted(s)),
        sorted(s).to_multiset() == s.to_multiset(),
        sorted(s).len() == s.len(),
    decreases s.len(),
{
    if s.len() == 0 {
        assert(s =~= Seq::empty());
        assert(sorted(s) =~= s);
    } else {
        let rest = sorted(s.drop_last());
        let x = s.last();
        let k = place(rest, x, 0);
        let all = rest.insert(k, x);
        law_sorted(s.drop_last());
        lemma_place(rest, x, 0);
        assert forall|i: int, j: int| 0 <= i < j < all.len() implies not_after(
            #[trigger] all[i],
            #[trigger] all[j],
        ) by {
            let a = if i < k {
                rest[i]
            } else {
                rest[i - 1]
            };
            let b = if j < k {
                rest[j]
            } else {
                rest[j - 1]
            };
            if j < k {
                assert(not_after(rest[i], rest[j]));
            } else if j == k {
                assert(not_after(rest[i], x));
            } else if i < k {
                assert(not_after(rest[i], rest[j - 1]));
            } else if i > k {
                assert(not_after(rest[i - 1], rest[j - 1]));
            } else {
                assert(!not_after(rest[k], x));
                lemma_total(rest[k], x);
                if k < j - 1 {
                    assert(not_after(rest[k], rest[j - 1]));
                    lemma_transitive(x, rest[k], rest[j - 1]);
                }
            }
        }
        rest.to_multiset_ensures();
        all.to_multiset_ensures();
        s.drop_last().to_multiset_ensures();
        assert(s =~= s.drop_last().push(x));
        assert(all.remove(k) =~= rest);
        vstd::seq_lib::to_multiset_remove(all, k);
        assert(all.to_multiset() =~= rest.to_multiset().insert(x));
        assert(s.to_multiset() =~= s.drop_last().to_multiset().insert(x));
    }
}

proof fn lemma_key_place(keys: Seq<i128>, order: Seq<int>, x: int, i: int)
    requires
        0 <= i <= order.len(),
    ensures
        i <= key_place(keys, order, x, i) <= order.len(),
        forall|j: int|
            i <= j < key_place(keys, order, x, i) ==> keys[#[trigger] order[j]] >= keys[x],
        key_place(keys, order, x, i) < order.len() ==> keys[order[key_place(keys, order, x, i)]]
            < keys[x],
    decreases order.len() - i,
{
    if i < order.len() && keys[order[i]] >= keys[x] {
        lemma_key_place(keys, order, x, i + 1);
    }
}

/// Ordering by a key gives every position once: a higher key first, and of the same keys
/// the one that came first.
pub proof fn law_by_key(keys: Seq<i128>, n: int)
    requires
        0 <= n <= keys.len(),
    ensures
        by_key(keys, n).len() == n,
        forall|i: int| 0 <= i < n ==> 0 <= #[trigger] by_key(keys, n)[i] < n,
        forall|i: int, j: int|
            0 <= i < j < n ==> {
                let a = #[trigger] by_key(keys, n)[i];
                let b = #[trigger] by_key(keys, n)[j];
                keys[a] > keys[b] || (keys[a] == keys[b] && a < b)
            },
    decreases n,
{
    if n > 0 {
        let rest = by_key(keys, n - 1);
        let x = n - 1;
        let k = key_place(keys, rest, x, 0);
        let all = rest.insert(k, x);
        law_by_key(keys, n - 1);
        lemma_key_place(keys, rest, x, 0);
        assert forall|i: int| 0 <= i < n implies 0 <= #[trigger] all[i] < n by {
            if i < k {
                assert(all[i] == rest[i]);
            } else if i > k {
                assert(all[i] == rest[i - 1]);
            }
        }
        assert forall|i: int, j: int| 0 <= i < j < n implies ({
            let a = #[trigger] all[i];
            let b = #[trigger] all[j];
            keys[a] > keys[b] || (keys[a] == keys[b] && a < b)
        }) by {
            if j < k {
                assert(all[i] == rest[i] && all[j] == rest[j]);
            } else if j == k {
                assert(all[i] == rest[i]);
                assert(keys[rest[i]] >= keys[x]);
            } else if i < k {
                assert(all[i] == rest[i] && all[j] == rest[j - 1]);
            } else if i > k {
                assert(all[i] == rest[i - 1] && all[j] == rest[j - 1]);
            } else {
                assert(all[j] == rest[j - 1]);
                assert(keys[rest[k]] < keys[x]);
                if k < j - 1 {
                    assert(keys[rest[k]] >= keys[rest[j - 1]]);
                }
            }
        }
    }
}

/// Two texts are ordered by the first place where they differ: by the code points there, or,
/// where one is the beginning of the other, the shorter one first.
pub proof fn law_first_difference_decides(a: Seq<char>, b: Seq<char>, k: int)
    requires
        0 <= k <= a.len(),
        k <= b.len(),
        forall|i: int| 0 <= i < k ==> a[i] == b[i],
        k < a.len() && k < b.len() ==> a[k] != b[k],
    ensures
        k < a.len() && k < b.len() ==> not_after(a, b) == ((a[k] as int) < (b[k] as int)),
        k == a.len() ==> not_after(a, b),
        k == b.len() && k < a.len() ==> !not_after(a, b),
    decreases k,
{
    if k > 0 {
        let x = a.skip(1);
        let y = b.skip(1);
        assert(a[0] == b[0]);
        assert forall|i: int| 0 <= i < k - 1 implies x[i] == y[i] by {
            assert(a[i + 1] == b[i + 1]);
        }
        law_first_difference_decides(x, y, k - 1);
    }
}

/// Ordering by a key keeps every item.
pub proof fn lemma_by_key_keeps<T>(keys: Seq<i128>, items: Seq<T>, n: int)
    requires
        0 <= n <= keys.len(),
        keys.len() == items.len(),
    ensures
        by_key(keys, n).map_values(|i: int| items[i]).to_multiset() == items.take(n).to_multiset(),
    decreases n,
{
    let f = |i: int| items[i];
    if n == 0 {
        assert(by_key(keys, n).map_values(f) =~= items.take(n));
    } else {
        lemma_by_key_keeps(keys, items, n - 1);
        law_by_key(keys, n - 1);
        let rest = by_key(keys, n - 1);
        let k = key_place(keys, rest, n - 1, 0);
        lemma_key_place(keys, rest, n - 1, 0);
        let all = by_key(keys, n).map_values(f);
        assert(all =~= rest.map_values(f).insert(k, items[n - 1]));
        assert(all.remove(k) =~= rest.map_values(f));
        vstd::seq_lib::to_multiset_remove(all, k);
        all.to_multiset_ensures();
        rest.map_values(f).to_multiset_ensures();
        items.take(n - 1).to_multiset_ensures();
        assert(items.take(n) =~= items.take(n - 1).push(items[n - 1]));
        assert(all.to_multiset() =~= rest.map_values(f).to_multiset().insert(items[n - 1]));
        assert(items.take(n).to_multiset() =~= items.take(n - 1).to_multiset().insert(
            items[n - 1],
        ));
    }
}

} // verus!
