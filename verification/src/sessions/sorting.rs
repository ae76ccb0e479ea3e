//! Stable sorting, newest first.
use vstd::multiset::Multiset;
use vstd::prelude::*;

verus! {

/// What has a rank by which it is sorted.
pub trait Ranked: Sized {
    /// The rank.
    spec fn rank_of(&self) -> int;

    /// The rank.
    fn rank(&self) -> (r: i64)
        ensures
            r == self.rank_of(),
    ;
}

/// `s`, sorted from the highest key down, with `x` put before the first item
/// that has no higher key.
pub open spec fn inserted<T>(s: Seq<T>, x: T, key: spec_fn(T) -> int) -> Seq<T>
    decreases s.len(),
{
    if s.len() == 0 || key(s[0]) <= key(x) {
        seq![x] + s
    } else {
        seq![s[0]] + inserted(s.skip(1), x, key)
    }
}

/// `s` sorted from the highest key down, with equals in their order.
pub open spec fn sorted_desc<T>(s: Seq<T>, key: spec_fn(T) -> int) -> Seq<T>
    decreases s.len(),
{
    if s.len() == 0 {
        s
    } else {
        inserted(sorted_desc(s.skip(1), key), s[0], key)
    }
}

/// Whether the keys go down.
pub open spec fn is_desc<T>(s: Seq<T>, key: spec_fn(T) -> int) -> bool {
    forall|i: int, j: int| 0 <= i < j < s.len() ==> key(#[trigger] s[i]) >= key(#[trigger] s[j])
}

/// What insertion keeps: the items, and that the keys go down.
proof fn lemma_inserted<T>(s: Seq<T>, x: T, key: spec_fn(T) -> int)
    requires
        is_desc(s, key),
    ensures
        is_desc(inserted(s, x, key), key),
        inserted(s, x, key).to_multiset() == s.to_multiset().insert(x),
        inserted(s, x, key).len() == s.len() + 1,
    decreases s.len(),
{
    broadcast use vstd::seq_lib::group_to_multiset_ensures;

    let r = inserted(s, x, key);
    if s.len() == 0 || key(s[0]) <= key(x) {
        assert(r =~= seq![x] + s);
        vstd::seq_lib::lemma_multiset_commutative(seq![x], s);
        assert(seq![x] =~= Seq::empty().push(x));
        assert(seq![x].to_multiset() =~= Multiset::empty().insert(x));
        assert(r.to_multiset() =~= s.to_multiset().insert(x));
        assert forall|i: int, j: int| 0 <= i < j < r.len() implies key(#[trigger] r[i]) >= key(
            #[trigger] r[j],
        ) by {
            assert(r[j] == s[j - 1]);
            if i > 0 {
                assert(r[i] == s[i - 1]);
            } else if j > 1 {
                assert(key(s[0]) >= key(s[j - 1]));
            }
        }
    } else {
        let rest = s.skip(1);
        assert forall|i: int, j: int| 0 <= i < j < rest.len() implies key(#[trigger] rest[i])
            >= key(#[trigger] rest[j]) by {
            assert(rest[i] == s[i + 1] && rest[j] == s[j + 1]);
        }
        lemma_inserted(rest, x, key);
        let t = inserted(rest, x, key);
        assert(r =~= seq![s[0]] + t);
        vstd::seq_lib::lemma_multiset_commutative(seq![s[0]], t);
        vstd::seq_lib::lemma_multiset_commutative(seq![s[0]], rest);
        assert(s =~= seq![s[0]] + rest);
        assert(seq![s[0]] =~= Seq::empty().push(s[0]));
        assert(r.to_multiset() =~= s.to_multiset().insert(x));
        assert forall|i: int, j: int| 0 <= i < j < r.len() implies key(#[trigger] r[i]) >= key(
            #[trigger] r[j],
        ) by {
            assert(r[j] == t[j - 1]);
            if i > 0 {
                assert(r[i] == t[i - 1]);
            } else {
                assert(t.to_multiset().contains(t[j - 1])) by {
                    assert(t.contains(t[j - 1]));
                }
                if t[j - 1] != x {
                    assert(rest.to_multiset().contains(t[j - 1]));
                    assert(rest.contains(t[j - 1]));
                    let n = choose|n: int| 0 <= n < rest.len() && rest[n] == t[j - 1];
                    assert(rest[n] == s[n + 1]);
                    assert(key(s[0]) >= key(s[n + 1]));
                }
            }
        }
    }
}

/// A sorted list has the items of the list it was made from, and their keys go
/// down.
pub proof fn law_sorted_desc<T>(s: Seq<T>, key: spec_fn(T) -> int)
    ensures
        is_desc(sorted_desc(s, key), key),
        sorted_desc(s, key).to_multiset() == s.to_multiset(),
        sorted_desc(s, key).len() == s.len(),
    decreases s.len(),
{
    broadcast use vstd::seq_lib::group_to_multiset_ensures;

    if s.len() > 0 {
        let rest = s.skip(1);
        law_sorted_desc(rest, key);
        lemma_inserted(sorted_desc(rest, key), s[0], key);
        vstd::seq_lib::lemma_multiset_commutative(seq![s[0]], rest);
        assert(s =~= seq![s[0]] + rest);
        assert(seq![s[0]] =~= Seq::empty().push(s[0]));
        assert(s.to_multiset() =~= rest.to_multiset().insert(s[0]));
    }
}

/// Items with one key in the order of a list.
spec fn of_key<T>(s: Seq<T>, key: spec_fn(T) -> int, k: int) -> Seq<T>
    decreases s.len(),
{
    if s.len() == 0 {
        s
    } else if key(s[0]) == k {
        seq![s[0]] + of_key(s.skip(1), key, k)
    } else {
        of_key(s.skip(1), key, k)
    }
}

/// Insertion puts an item before its equals.
proof fn lemma_inserted_of_key<T>(s: Seq<T>, x: T, key: spec_fn(T) -> int, k: int)
    ensures
        of_key(inserted(s, x, key), key, k) == if key(x) == k {
            seq![x] + of_key(s, key, k)
        } else {
            of_key(s, key, k)
        },
    decreases s.len(),
{
    let r = inserted(s, x, key);
    if s.len() == 0 || key(s[0]) <= key(x) {
        assert(r.skip(1) =~= s);
        assert(r[0] == x);
    } else {
        lemma_inserted_of_key(s.skip(1), x, key, k);
        assert(r[0] == s[0]);
        assert(r.skip(1) =~= inserted(s.skip(1), x, key));
        if key(x) == k {
            assert(key(s[0]) != k);
        }
    }
}

/// Equals keep their order: of each key, a sorted list has the items in the
/// order of the list it was made from.
pub proof fn law_sorted_desc_is_stable<T>(s: Seq<T>, key: spec_fn(T) -> int, i: int, j: int)
    requires
        0 <= i < j < s.len(),
        key(s[i]) == key(s[j]),
    ensures
        exists|a: int, b: int|
            0 <= a < b < s.len() && #[trigger] sorted_desc(s, key)[a] == s[i]
                && #[trigger] sorted_desc(s, key)[b] == s[j],
{
    let k = key(s[i]);
    let t = sorted_desc(s, key);
    law_sorted_desc(s, key);
    lemma_stable(s, key, k);
    let (p, q) = lemma_of_key_positions(s, key, k, i, j);
    let (a, b) = lemma_positions_of_key(t, key, k, p, q);
    assert(t[a] == s[i] && t[b] == s[j]);
}

/// A sorted list has the items of one key in their order.
proof fn lemma_stable<T>(s: Seq<T>, key: spec_fn(T) -> int, k: int)
    ensures
        of_key(sorted_desc(s, key), key, k) == of_key(s, key, k),
    decreases s.len(),
{
    if s.len() > 0 {
        lemma_stable(s.skip(1), key, k);
        lemma_inserted_of_key(sorted_desc(s.skip(1), key), s[0], key, k);
    }
}

/// Where two items of one key stand among those of the key.
proof fn lemma_of_key_positions<T>(
    s: Seq<T>,
    key: spec_fn(T) -> int,
    k: int,
    i: int,
    j: int,
) -> (r: (int, int))
    requires
        0 <= i < j < s.len(),
        key(s[i]) == k,
        key(s[j]) == k,
    ensures
        0 <= r.0 < r.1 < of_key(s, key, k).len(),
        of_key(s, key, k)[r.0] == s[i],
        of_key(s, key, k)[r.1] == s[j],
    decreases s.len(),
{
    let rest = s.skip(1);
    let all = of_key(s, key, k);
    let sub = of_key(rest, key, k);
    if i > 0 {
        let (p, q) = lemma_of_key_positions(rest, key, k, i - 1, j - 1);
        if key(s[0]) == k {
            assert(all[p + 1] == sub[p]);
            assert(all[q + 1] == sub[q]);
            (p + 1, q + 1)
        } else {
            (p, q)
        }
    } else {
        let q = lemma_of_key_position(rest, key, k, j - 1);
        assert(all[q + 1] == sub[q]);
        assert(all[0] == s[0]);
        (0, q + 1)
    }
}

/// Where an item of one key stands among those of the key.
proof fn lemma_of_key_position<T>(s: Seq<T>, key: spec_fn(T) -> int, k: int, i: int) -> (r: int)
    requires
        0 <= i < s.len(),
        key(s[i]) == k,
    ensures
        0 <= r < of_key(s, key, k).len(),
        of_key(s, key, k)[r] == s[i],
    decreases s.len(),
{
    let all = of_key(s, key, k);
    if i == 0 {
        assert(all[0] == s[0]);
        0
    } else {
        let q = lemma_of_key_position(s.skip(1), key, k, i - 1);
        if key(s[0]) == k {
            assert(all[q + 1] == of_key(s.skip(1), key, k)[q]);
            q + 1
        } else {
            q
        }
    }
}

/// Where two items among those of one key stand in a list.
proof fn lemma_positions_of_key<T>(
    s: Seq<T>,
    key: spec_fn(T) -> int,
    k: int,
    p: int,
    q: int,
) -> (r: (int, int))
    requires
        0 <= p < q < of_key(s, key, k).len(),
    ensures
        0 <= r.0 < r.1 < s.len(),
        s[r.0] == of_key(s, key, k)[p],
        s[r.1] == of_key(s, key, k)[q],
    decreases s.len(),
{
    let all = of_key(s, key, k);
    let rest = s.skip(1);
    let sub = of_key(rest, key, k);
    if key(s[0]) == k {
        assert(all =~= seq![s[0]] + sub);
        if p == 0 {
            let b = lemma_position_of_key(rest, key, k, q - 1);
            assert(all[q] == sub[q - 1]);
            assert(rest[b] == s[b + 1]);
            (0, b + 1)
        } else {
            let (a, b) = lemma_positions_of_key(rest, key, k, p - 1, q - 1);
            assert(all[p] == sub[p - 1] && all[q] == sub[q - 1]);
            assert(rest[a] == s[a + 1] && rest[b] == s[b + 1]);
            (a + 1, b + 1)
        }
    } else {
        let (a, b) = lemma_positions_of_key(rest, key, k, p, q);
        assert(rest[a] == s[a + 1] && rest[b] == s[b + 1]);
        (a + 1, b + 1)
    }
}

/// Where an item among those of one key stands in a list.
proof fn lemma_position_of_key<T>(s: Seq<T>, key: spec_fn(T) -> int, k: int, p: int) -> (r: int)
    requires
        0 <= p < of_key(s, key, k).len(),
    ensures
        0 <= r < s.len(),
        s[r] == of_key(s, key, k)[p],
    decreases s.len(),
{
    let all = of_key(s, key, k);
    let rest = s.skip(1);
    let sub = of_key(rest, key, k);
    if key(s[0]) == k && p == 0 {
        assert(all[0] == s[0]);
        0
    } else if key(s[0]) == k {
        assert(all[p] == sub[p - 1]);
        let a = lemma_position_of_key(rest, key, k, p - 1);
        assert(rest[a] == s[a + 1]);
        a + 1
    } else {
        let a = lemma_position_of_key(rest, key, k, p);
        assert(rest[a] == s[a + 1]);
        a + 1
    }
}

/// Sorting goes along with a view of the items that keeps the keys.
pub proof fn lemma_sorted_views<T, V>(
    s: Seq<T>,
    key: spec_fn(T) -> int,
    view: spec_fn(T) -> V,
    view_key: spec_fn(V) -> int,
)
    requires
        forall|t: T| view_key(#[trigger] view(t)) == key(t),
    ensures
        Seq::new(sorted_desc(s, key).len(), |i: int| view(sorted_desc(s, key)[i])) == sorted_desc(
            Seq::new(s.len(), |i: int| view(s[i])),
            view_key,
        ),
    decreases s.len(),
{
    let sv = Seq::new(s.len(), |i: int| view(s[i]));
    if s.len() > 0 {
        let rest = s.skip(1);
        lemma_sorted_views(rest, key, view, view_key);
        let restv = Seq::new(rest.len(), |i: int| view(rest[i]));
        assert(sv.skip(1) =~= restv);
        let t = sorted_desc(rest, key);
        lemma_inserted_views(t, s[0], key, view, view_key);
    } else {
        assert(Seq::new(sorted_desc(s, key).len(), |i: int| view(sorted_desc(s, key)[i])) =~= sv);
    }
}

/// Insertion goes along with a view of the items that keeps the keys.
proof fn lemma_inserted_views<T, V>(
    s: Seq<T>,
    x: T,
    key: spec_fn(T) -> int,
    view: spec_fn(T) -> V,
    view_key: spec_fn(V) -> int,
)
    requires
        forall|t: T| view_key(#[trigger] view(t)) == key(t),
    ensures
        Seq::new(inserted(s, x, key).len(), |i: int| view(inserted(s, x, key)[i])) == inserted(
            Seq::new(s.len(), |i: int| view(s[i])),
            view(x),
            view_key,
        ),
    decreases s.len(),
{
    let sv = Seq::new(s.len(), |i: int| view(s[i]));
    let r = inserted(s, x, key);
    let rv = Seq::new(r.len(), |i: int| view(r[i]));
    assert(view_key(view(x)) == key(x));
    if s.len() == 0 {
        assert(rv =~= inserted(sv, view(x), view_key));
    } else {
        assert(view_key(view(s[0])) == key(s[0]));
        assert(sv[0] == view(s[0]));
        if key(s[0]) <= key(x) {
            assert(rv =~= seq![view(x)] + sv);
        } else {
            lemma_inserted_views(s.skip(1), x, key, view, view_key);
            let rest = s.skip(1);
            assert(sv.skip(1) =~= Seq::new(rest.len(), |i: int| view(rest[i])));
            let t = inserted(rest, x, key);
            assert(rv =~= seq![view(s[0])] + Seq::new(t.len(), |i: int| view(t[i])));
        }
    }
}

/// Sorts from the highest rank down, with equals in their order.
pub fn sort_desc<T: Ranked>(items: Vec<T>) -> (r: Vec<T>)
    ensures
        r@ == sorted_desc(items@, |t: T| t.rank_of()),
{
    let ghost all = items@;
    let ghost key = |t: T| t.rank_of();
    let mut rest = items;
    let mut out: Vec<T> = Vec::new();
    proof {
        assert(all.skip(all.len() as int) =~= Seq::<T>::empty());
        assert(out@ =~= sorted_desc(all.skip(all.len() as int), key));
        assert(rest@ =~= all.take(all.len() as int));
    }
    while rest.len() > 0
        invariant
            key == (|t: T| t.rank_of()),
            rest@.len() <= all.len(),
            rest@ == all.take(rest@.len() as int),
            out@ == sorted_desc(all.skip(rest@.len() as int), key),
        decreases rest@.len(),
    {
        let ghost n = rest@.len() as int;
        match rest.pop() {
            Some(x) => {
                proof {
                    assert(x == all[n - 1]);
                    assert(rest@ =~= all.take(n - 1));
                    assert(all.skip(n - 1)[0] == x);
                    assert(all.skip(n - 1).skip(1) =~= all.skip(n));
                }
                insert_ranked(&mut out, x);
            },
            None => {},
        }
    }
    proof {
        assert(all.skip(0) =~= all);
    }
    out
}

/// Puts an item before the first one that has no higher rank.
fn insert_ranked<T: Ranked>(out: &mut Vec<T>, x: T)
    ensures
        final(out)@ == inserted(old(out)@, x, |t: T| t.rank_of()),
{
    let ghost key = |t: T| t.rank_of();
    let ghost s = out@;
    let k: i64 = x.rank();
    let mut i: usize = 0;
    proof {
        assert(s.take(0) + inserted(s.skip(0), x, key) =~= inserted(s, x, key)) by {
            assert(s.skip(0) =~= s);
        }
    }
    while i < out.len() && out[i].rank() > k
        invariant
            key == (|t: T| t.rank_of()),
            s == out@,
            k == x.rank_of(),
            i <= out@.len(),
            s.take(i as int) + inserted(s.skip(i as int), x, key) == inserted(s, x, key),
        decreases out@.len() - i,
    {
        proof {
            let r = s.skip(i as int);
            assert(r[0] == s[i as int]);
            assert(r.skip(1) =~= s.skip(i as int + 1));
            assert(s.take(i as int) + (seq![s[i as int]] + inserted(s.skip(i as int + 1), x, key))
                =~= s.take(i as int + 1) + inserted(s.skip(i as int + 1), x, key));
        }
        i = i + 1;
    }
    proof {
        let r = s.skip(i as int);
        assert(inserted(r, x, key) =~= seq![x] + r) by {
            if r.len() > 0 {
                assert(r[0] == s[i as int]);
            }
        }
    }
    out.insert(i, x);
    proof {
        assert(out@ =~= s.take(i as int) + (seq![x] + s.skip(i as int)));
    }
}

} // verus!
