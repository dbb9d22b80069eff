//! Stable sorting by keys, the way `slice::sort_by` orders items: items
//! with smaller keys first, items with equal keys in the order they came in.
use vstd::prelude::*;
use vstd::set_lib::{lemma_int_range, lemma_subset_equality, set_int_range};
use crate::bytes::{
    lex_lt, lex_less, lemma_lex_asymmetric, lemma_lex_le_transitive, lemma_lex_total,
};

verus! {

/// A key type with a strict total order that the sort follows.
pub trait SortKey: Sized {
    /// Whether `self` orders strictly before `other`.
    spec fn key_lt(self, other: Self) -> bool;

    proof fn lemma_key_lt_asymmetric(a: Self, b: Self)
        requires
            a.key_lt(b),
        ensures
            !b.key_lt(a),
    ;

    proof fn lemma_key_le_transitive(a: Self, b: Self, c: Self)
        requires
            !b.key_lt(a),
            !c.key_lt(b),
        ensures
            !c.key_lt(a),
    ;

    fn less_than(&self, other: &Self) -> (r: bool)
        ensures
            r == self.key_lt(*other),
    ;
}

impl SortKey for i128 {
    open spec fn key_lt(self, other: Self) -> bool {
        self < other
    }

    proof fn lemma_key_lt_asymmetric(a: Self, b: Self) {
    }

    proof fn lemma_key_le_transitive(a: Self, b: Self, c: Self) {
    }

    fn less_than(&self, other: &Self) -> (r: bool) {
        *self < *other
    }
}

impl SortKey for Vec<u8> {
    open spec fn key_lt(self, other: Self) -> bool {
        lex_lt(self@, other@)
    }

    proof fn lemma_key_lt_asymmetric(a: Self, b: Self) {
        lemma_lex_asymmetric(a@, b@);
    }

    proof fn lemma_key_le_transitive(a: Self, b: Self, c: Self) {
        lemma_lex_le_transitive(a@, b@, c@);
    }

    fn less_than(&self, other: &Self) -> (r: bool) {
        lex_less(self.as_slice(), other.as_slice())
    }
}

/// `out` holds the items of `items` in the order given by `p` (`out[k]` is
/// `items[p[k]]`, each item once), sorted by their keys, with items of
/// equal keys in the order they came in.
pub open spec fn sorted_stably<K: SortKey, T>(
    keys: Seq<K>,
    items: Seq<T>,
    out: Seq<T>,
    p: Seq<int>,
) -> bool {
    &&& keys.len() == items.len()
    &&& out.len() == items.len()
    &&& p.len() == items.len()
    &&& forall|k: int|
        0 <= k < p.len() ==> 0 <= #[trigger] p[k] < items.len() && out[k] == items[p[k]]
    &&& forall|k: int, l: int|
        #![trigger p[k], p[l]]
        0 <= k < l < p.len() ==> {
            &&& p[k] != p[l]
            &&& !keys[p[l]].key_lt(keys[p[k]])
            &&& (!keys[p[k]].key_lt(keys[p[l]]) ==> p[k] < p[l])
        }
}

/// `out` is the stable sort of `items` by `keys`.
pub open spec fn is_stable_sort<K: SortKey, T>(keys: Seq<K>, items: Seq<T>, out: Seq<T>) -> bool {
    exists|p: Seq<int>| sorted_stably(keys, items, out, p)
}

/// Sorts `items` stably by `keys` (`keys[i]` is the key of `items[i]`).
pub fn stable_sort_by_keys<K: SortKey, T>(keys: Vec<K>, items: Vec<T>) -> (out: Vec<T>)
    requires
        keys.len() == items.len(),
    ensures
        is_stable_sort(keys@, items@, out@),
{
    let ghost keys0 = keys@;
    let ghost items0 = items@;
    let ghost n = items@.len() as int;
    let mut keys = keys;
    let mut items = items;
    let mut out_keys: Vec<K> = Vec::new();
    let mut out: Vec<T> = Vec::new();
    let ghost mut p: Seq<int> = Seq::empty();
    while items.len() > 0
        invariant
            keys.len() == items.len(),
            n == keys0.len() == items0.len(),
            items.len() <= n,
            keys@ == keys0.take(items.len() as int),
            items@ == items0.take(items.len() as int),
            out_keys.len() == out.len() == p.len() == n - items.len(),
            forall|k: int|
                0 <= k < p.len() ==> items.len() <= #[trigger] p[k] < n && out[k] == items0[p[k]]
                    && out_keys[k] == keys0[p[k]],
            forall|k: int, l: int|
                #![trigger p[k], p[l]]
                0 <= k < l < p.len() ==> {
                    &&& p[k] != p[l]
                    &&& !keys0[p[l]].key_lt(keys0[p[k]])
                    &&& (!keys0[p[k]].key_lt(keys0[p[l]]) ==> p[k] < p[l])
                },
        decreases items.len(),
    {
        let x = items.pop().unwrap();
        let kx = keys.pop().unwrap();
        let i = items.len();
        assert(keys@ == keys0.take(i as int));
        assert(items@ == items0.take(i as int));
        assert(kx == keys0[i as int]);
        assert(x == items0[i as int]);
        let mut pos: usize = 0;
        loop
            invariant
                pos <= out_keys.len(),
                forall|j: int| 0 <= j < pos ==> (#[trigger] out_keys@[j]).key_lt(kx),
            ensures
                pos <= out_keys.len(),
                forall|j: int| 0 <= j < pos ==> (#[trigger] out_keys@[j]).key_lt(kx),
                pos < out_keys.len() ==> !out_keys@[pos as int].key_lt(kx),
            decreases out_keys.len() - pos,
        {
            if pos >= out_keys.len() {
                break;
            }
            if !out_keys[pos].less_than(&kx) {
                break;
            }
            pos = pos + 1;
        }
        let ghost old_p = p;
        let ghost old_keys = out_keys@;
        let ghost old_out = out@;
        out.insert(pos, x);
        out_keys.insert(pos, kx);
        proof {
            p = old_p.insert(pos as int, i as int);
            old_p.insert_ensures(pos as int, i as int);
            old_keys.insert_ensures(pos as int, kx);
            old_out.insert_ensures(pos as int, x);
            assert forall|k: int|
                0 <= k < p.len() implies i <= #[trigger] p[k] < n && out[k] == items0[p[k]]
                && out_keys[k] == keys0[p[k]] by {
                if k < pos {
                    assert(p[k] == old_p[k]);
                } else if k > pos {
                    assert(p[k] == old_p[k - 1]);
                }
            }
            assert forall|k: int, l: int|
                #![trigger p[k], p[l]]
                0 <= k < l < p.len() implies {
                    &&& p[k] != p[l]
                    &&& !keys0[p[l]].key_lt(keys0[p[k]])
                    &&& (!keys0[p[k]].key_lt(keys0[p[l]]) ==> p[k] < p[l])
                } by {
                if l < pos {
                    assert(p[k] == old_p[k] && p[l] == old_p[l]);
                } else if k > pos {
                    assert(p[k] == old_p[k - 1] && p[l] == old_p[l - 1]);
                } else if k < pos && l > pos {
                    assert(p[k] == old_p[k] && p[l] == old_p[l - 1]);
                } else if l == pos {
                    assert(p[k] == old_p[k]);
                    assert(old_keys[k].key_lt(kx));
                    K::lemma_key_lt_asymmetric(old_keys[k], kx);
                } else {
                    assert(k == pos);
                    assert(p[l] == old_p[l - 1]);
                    assert(!old_keys[pos as int].key_lt(kx));
                    if l - 1 > pos {
                        assert(!old_keys[l - 1].key_lt(old_keys[pos as int])) by {
                            assert(old_p[pos as int] == p[pos + 1]);
                        }
                        K::lemma_key_le_transitive(kx, old_keys[pos as int], old_keys[l - 1]);
                    }
                }
            }
        }
    }
    assert(keys0.take(0) =~= Seq::<K>::empty());
    proof {
        assert(sorted_stably(keys0, items0, out@, p));
    }
    out
}

/// `out` is the stable sort of `items` by byte-string keys: as
/// `sorted_stably`, with keys compared lexicographically.
pub open spec fn byte_sorted_stably<T>(keys: Seq<Seq<u8>>, items: Seq<T>, out: Seq<T>, p: Seq<int>) -> bool {
    &&& keys.len() == items.len()
    &&& out.len() == items.len()
    &&& p.len() == items.len()
    &&& forall|k: int|
        0 <= k < p.len() ==> 0 <= #[trigger] p[k] < items.len() && out[k] == items[p[k]]
    &&& forall|k: int, l: int|
        #![trigger p[k], p[l]]
        0 <= k < l < p.len() ==> {
            &&& p[k] != p[l]
            &&& !lex_lt(keys[p[l]], keys[p[k]])
            &&& (!lex_lt(keys[p[k]], keys[p[l]]) ==> p[k] < p[l])
        }
}

/// `out` is the stable sort of `items` by the byte strings `keys`.
pub open spec fn is_byte_stable_sort<T>(keys: Seq<Seq<u8>>, items: Seq<T>, out: Seq<T>) -> bool {
    exists|p: Seq<int>| byte_sorted_stably(keys, items, out, p)
}

/// The byte views of a list of byte vectors.
pub open spec fn key_bytes(keys: Seq<Vec<u8>>) -> Seq<Seq<u8>> {
    keys.map_values(|k: Vec<u8>| k@)
}

/// Sorts `items` stably by the byte strings `keys`.
pub fn stable_sort_by_bytes<T>(keys: Vec<Vec<u8>>, items: Vec<T>) -> (out: Vec<T>)
    requires
        keys.len() == items.len(),
    ensures
        is_byte_stable_sort(key_bytes(keys@), items@, out@),
{
    let ghost k = keys@;
    let ghost it = items@;
    let out = stable_sort_by_keys(keys, items);
    proof {
        let p = choose|p: Seq<int>| sorted_stably(k, it, out@, p);
        assert(byte_sorted_stably(key_bytes(k), it, out@, p));
    }
    out
}

/// Applying a function to the items of a stable sort gives the stable sort
/// of the images.
pub proof fn lemma_byte_sort_map<T, U>(keys: Seq<Seq<u8>>, items: Seq<T>, out: Seq<T>, f: spec_fn(T) -> U)
    requires
        is_byte_stable_sort(keys, items, out),
    ensures
        is_byte_stable_sort(keys, items.map_values(f), out.map_values(f)),
{
    let p = choose|p: Seq<int>| byte_sorted_stably(keys, items, out, p);
    assert(byte_sorted_stably(keys, items.map_values(f), out.map_values(f), p));
}

/// A list of `n` distinct positions below `n` holds every position below
/// `n`.
proof fn lemma_positions_onto(p: Seq<int>, n: int, v: int)
    requires
        p.len() == n,
        forall|k: int| 0 <= k < n ==> 0 <= #[trigger] p[k] < n,
        forall|k: int, l: int| #![trigger p[k], p[l]] 0 <= k < l < n ==> p[k] != p[l],
        0 <= v < n,
    ensures
        exists|k: int| 0 <= k < n && p[k] == v,
{
    broadcast use vstd::seq_lib::seq_to_set_is_finite;
    assert(p.no_duplicates()) by {
        assert forall|i: int, j: int| 0 <= i < p.len() && 0 <= j < p.len() && i != j implies p[i]
            != p[j] by {
            if i < j {
                assert(p[i] != p[j]);
            } else {
                assert(p[j] != p[i]);
            }
        }
    }
    p.unique_seq_to_set();
    lemma_int_range(0, n);
    assert(p.to_set().subset_of(set_int_range(0, n))) by {
        assert forall|x: int| p.to_set().contains(x) implies set_int_range(0, n).contains(x) by {
            let k = choose|k: int| 0 <= k < p.len() && p[k] == x;
        }
    }
    lemma_subset_equality(p.to_set(), set_int_range(0, n));
    assert(set_int_range(0, n).contains(v));
    assert(p.to_set().contains(v));
}

/// Two orderings that both sort the same items stably agree position by
/// position up to `k`.
proof fn lemma_sorted_positions_agree<K: SortKey, T>(
    keys: Seq<K>,
    items: Seq<T>,
    out1: Seq<T>,
    out2: Seq<T>,
    p1: Seq<int>,
    p2: Seq<int>,
    k: int,
)
    requires
        sorted_stably(keys, items, out1, p1),
        sorted_stably(keys, items, out2, p2),
        0 <= k < items.len(),
    ensures
        forall|j: int| 0 <= j <= k ==> p1[j] == p2[j],
    decreases k,
{
    let n = items.len() as int;
    if k > 0 {
        lemma_sorted_positions_agree(keys, items, out1, out2, p1, p2, k - 1);
    }
    let a = p1[k];
    let b = p2[k];
    if a != b {
        lemma_positions_onto(p2, n, a);
        let l = choose|l: int| 0 <= l < n && p2[l] == a;
        lemma_positions_onto(p1, n, b);
        let m = choose|m: int| 0 <= m < n && p1[m] == b;
        if l < k {
            assert(p1[l] == p2[l]);
            assert(p1[l] != p1[k]);
        } else if m < k {
            assert(p1[m] == p2[m]);
            assert(p2[m] != p2[k]);
        } else {
            assert(l > k && m > k);
            assert(!keys[p2[l]].key_lt(keys[p2[k]]));
            assert(!keys[p1[m]].key_lt(keys[p1[k]]));
        }
    }
}

/// A stable sort has one outcome: the stable sorts of the same items by
/// the same keys are equal.
pub proof fn law_stable_sort_unique<K: SortKey, T>(keys: Seq<K>, items: Seq<T>, out1: Seq<T>, out2: Seq<T>)
    requires
        is_stable_sort(keys, items, out1),
        is_stable_sort(keys, items, out2),
    ensures
        out1 == out2,
{
    let p1 = choose|p: Seq<int>| sorted_stably(keys, items, out1, p);
    let p2 = choose|p: Seq<int>| sorted_stably(keys, items, out2, p);
    if items.len() > 0 {
        lemma_sorted_positions_agree(keys, items, out1, out2, p1, p2, items.len() - 1);
    }
    assert forall|k: int| 0 <= k < out1.len() implies out1[k] == out2[k] by {
        assert(p1[k] == p2[k]);
    }
    assert(out1 =~= out2);
}

proof fn lemma_byte_sorted_positions_agree<T>(
    keys: Seq<Seq<u8>>,
    items: Seq<T>,
    out1: Seq<T>,
    out2: Seq<T>,
    p1: Seq<int>,
    p2: Seq<int>,
    k: int,
)
    requires
        byte_sorted_stably(keys, items, out1, p1),
        byte_sorted_stably(keys, items, out2, p2),
        0 <= k < items.len(),
    ensures
        forall|j: int| 0 <= j <= k ==> p1[j] == p2[j],
    decreases k,
{
    let n = items.len() as int;
    if k > 0 {
        lemma_byte_sorted_positions_agree(keys, items, out1, out2, p1, p2, k - 1);
    }
    let a = p1[k];
    let b = p2[k];
    if a != b {
        lemma_positions_onto(p2, n, a);
        let l = choose|l: int| 0 <= l < n && p2[l] == a;
        lemma_positions_onto(p1, n, b);
        let m = choose|m: int| 0 <= m < n && p1[m] == b;
        if l < k {
            assert(p1[l] == p2[l]);
            assert(p1[l] != p1[k]);
        } else if m < k {
            assert(p1[m] == p2[m]);
            assert(p2[m] != p2[k]);
        } else {
            assert(l > k && m > k);
            assert(!lex_lt(keys[p2[l]], keys[p2[k]]));
            assert(!lex_lt(keys[p1[m]], keys[p1[k]]));
        }
    }
}

/// A stable sort by byte-string keys has one outcome.
pub proof fn law_byte_stable_sort_unique<T>(keys: Seq<Seq<u8>>, items: Seq<T>, out1: Seq<T>, out2: Seq<T>)
    requires
        is_byte_stable_sort(keys, items, out1),
        is_byte_stable_sort(keys, items, out2),
    ensures
        out1 == out2,
{
    let p1 = choose|p: Seq<int>| byte_sorted_stably(keys, items, out1, p);
    let p2 = choose|p: Seq<int>| byte_sorted_stably(keys, items, out2, p);
    if items.len() > 0 {
        lemma_byte_sorted_positions_agree(keys, items, out1, out2, p1, p2, items.len() - 1);
    }
    assert forall|k: int| 0 <= k < out1.len() implies out1[k] == out2[k] by {
        assert(p1[k] == p2[k]);
    }
    assert(out1 =~= out2);
}

/// A stable sort keeps every item: what the items hold, the sorted list
/// holds.
pub proof fn lemma_stable_sort_keeps<K: SortKey, T>(keys: Seq<K>, items: Seq<T>, out: Seq<T>, x: T)
    requires
        is_stable_sort(keys, items, out),
        items.contains(x),
    ensures
        out.contains(x),
{
    let p = choose|p: Seq<int>| sorted_stably(keys, items, out, p);
    let i = choose|i: int| 0 <= i < items.len() && items[i] == x;
    lemma_positions_onto(p, items.len() as int, i);
    let k = choose|k: int| 0 <= k < items.len() && p[k] == i;
    assert(out[k] == x);
}

/// Sorting by distinct byte-string keys does not depend on the order of
/// its input: two lists that hold the same (key, item) pairs, in any two
/// orders (`items2[j]` is `items1[q[j]]`, with `q` a rearrangement), sort
/// to the same list. So a block's orders, sorted by their distinct
/// encodings, come out the same whatever order they arrived in.
pub proof fn law_byte_sort_ignores_input_order<T>(
    keys1: Seq<Seq<u8>>,
    items1: Seq<T>,
    keys2: Seq<Seq<u8>>,
    items2: Seq<T>,
    q: Seq<int>,
    out1: Seq<T>,
    out2: Seq<T>,
)
    requires
        keys1.len() == items1.len(),
        q.len() == items1.len(),
        keys2.len() == q.len(),
        items2.len() == q.len(),
        forall|j: int|
            0 <= j < q.len() ==> 0 <= #[trigger] q[j] < items1.len() && items2[j] == items1[q[j]]
                && keys2[j] == keys1[q[j]],
        forall|j: int, l: int| #![trigger q[j], q[l]] 0 <= j < l < q.len() ==> q[j] != q[l],
        forall|i: int, j: int|
            #![trigger keys1[i], keys1[j]]
            0 <= i < j < keys1.len() ==> keys1[i] != keys1[j],
        is_byte_stable_sort(keys1, items1, out1),
        is_byte_stable_sort(keys2, items2, out2),
    ensures
        out1 == out2,
{
    let p2 = choose|p: Seq<int>| byte_sorted_stably(keys2, items2, out2, p);
    let r = Seq::new(p2.len(), |k: int| q[p2[k]]);
    assert forall|k: int| 0 <= k < r.len() implies 0 <= #[trigger] r[k] < items1.len() && out2[k]
        == items1[r[k]] by {
        assert(0 <= p2[k] < items2.len());
    }
    assert forall|k: int, l: int| #![trigger r[k], r[l]] 0 <= k < l < r.len() implies {
        &&& r[k] != r[l]
        &&& !lex_lt(keys1[r[l]], keys1[r[k]])
        &&& (!lex_lt(keys1[r[k]], keys1[r[l]]) ==> r[k] < r[l])
    } by {
        assert(p2[k] != p2[l]);
        assert(0 <= p2[k] < q.len() && 0 <= p2[l] < q.len());
        if p2[k] < p2[l] {
            assert(q[p2[k]] != q[p2[l]]);
        } else {
            assert(q[p2[l]] != q[p2[k]]);
        }
        assert(keys1[r[k]] == keys2[p2[k]] && keys1[r[l]] == keys2[p2[l]]);
        assert(!lex_lt(keys2[p2[l]], keys2[p2[k]]));
        if r[k] < r[l] {
            assert(keys1[r[k]] != keys1[r[l]]);
        } else {
            assert(keys1[r[l]] != keys1[r[k]]);
        }
        lemma_lex_total(keys1[r[k]], keys1[r[l]]);
    }
    assert(byte_sorted_stably(keys1, items1, out2, r));
    law_byte_stable_sort_unique(keys1, items1, out1, out2);
}

/// A stable sort by byte strings keeps every item.
pub proof fn lemma_byte_sort_keeps<T>(keys: Seq<Seq<u8>>, items: Seq<T>, out: Seq<T>, x: T)
    requires
        is_byte_stable_sort(keys, items, out),
        items.contains(x),
    ensures
        out.contains(x),
{
    let p = choose|p: Seq<int>| byte_sorted_stably(keys, items, out, p);
    let i = choose|i: int| 0 <= i < items.len() && items[i] == x;
    lemma_positions_onto(p, items.len() as int, i);
    let k = choose|k: int| 0 <= k < items.len() && p[k] == i;
    assert(out[k] == x);
}

} // verus!
