//! Sorting positions by `(namespace, bytes)` keys, ties broken by position.

use crate::text::{
    compare_keys, key_lt, lemma_lex_asymmetric, lemma_lex_irreflexive, lemma_lex_total,
    lemma_lex_transitive, lex_lt, KeyOrder,
};
use vstd::prelude::*;

verus! {

/// A sort key: a namespace byte and a byte string.
pub struct SortKey {
    pub ns: u8,
    pub text: Vec<u8>,
}

impl View for SortKey {
    type V = (u8, Seq<u8>);

    open spec fn view(&self) -> (u8, Seq<u8>) {
        (self.ns, self.text@)
    }
}

/// The keys, taken as values.
pub open spec fn key_views(keys: Seq<SortKey>) -> Seq<(u8, Seq<u8>)> {
    keys.map_values(|k: SortKey| k@)
}

/// Position `i` sorts strictly before position `j`: by key, then by position.
pub open spec fn idx_lt(keys: Seq<(u8, Seq<u8>)>, i: int, j: int) -> bool {
    let a = keys[i];
    let b = keys[j];
    key_lt(a.0, a.1, b.0, b.1) || (a.0 == b.0 && a.1 == b.1 && i < j)
}

/// `s` lists positions in strictly increasing order.
pub open spec fn sorted_idx(keys: Seq<(u8, Seq<u8>)>, s: Seq<usize>) -> bool {
    forall|a: int, b: int| 0 <= a < b < s.len() ==> idx_lt(keys, s[a] as int, s[b] as int)
}

/// Every element of `s` is a position of `keys`.
pub open spec fn in_range(keys: Seq<(u8, Seq<u8>)>, s: Seq<usize>) -> bool {
    forall|a: int| 0 <= a < s.len() ==> s[a] < keys.len()
}

/// The positions `0..n`.
pub open spec fn positions(n: nat) -> Seq<usize> {
    Seq::new(n, |i: int| i as usize)
}

pub proof fn lemma_idx_lt_irreflexive(keys: Seq<(u8, Seq<u8>)>, i: int)
    ensures
        !idx_lt(keys, i, i),
{
    lemma_lex_irreflexive(keys[i].1);
}

pub proof fn lemma_idx_lt_transitive(keys: Seq<(u8, Seq<u8>)>, i: int, j: int, k: int)
    requires
        idx_lt(keys, i, j),
        idx_lt(keys, j, k),
    ensures
        idx_lt(keys, i, k),
{
    let (a, b, c) = (keys[i], keys[j], keys[k]);
    if a.0 == b.0 && b.0 == c.0 && key_lt(a.0, a.1, b.0, b.1) && key_lt(b.0, b.1, c.0, c.1) {
        lemma_lex_transitive(a.1, b.1, c.1);
    }
}

pub proof fn lemma_idx_lt_total(keys: Seq<(u8, Seq<u8>)>, i: int, j: int)
    requires
        i != j,
    ensures
        idx_lt(keys, i, j) || idx_lt(keys, j, i),
{
    lemma_lex_total(keys[i].1, keys[j].1);
}

pub proof fn lemma_idx_lt_asymmetric(keys: Seq<(u8, Seq<u8>)>, i: int, j: int)
    ensures
        !(idx_lt(keys, i, j) && idx_lt(keys, j, i)),
{
    lemma_lex_asymmetric(keys[i].1, keys[j].1);
    lemma_lex_irreflexive(keys[i].1);
}

/// Compares positions `i` and `j`.
fn less(keys: &Vec<SortKey>, i: usize, j: usize) -> (r: bool)
    requires
        i < keys@.len(),
        j < keys@.len(),
    ensures
        r == idx_lt(key_views(keys@), i as int, j as int),
{
    let a = &keys[i];
    let b = &keys[j];
    match compare_keys(a.ns, a.text.as_slice(), b.ns, b.text.as_slice()) {
        KeyOrder::Less => true,
        KeyOrder::Greater => false,
        KeyOrder::Equal => i < j,
    }
}

/// Merges two sorted runs of positions.
fn merge(keys: &Vec<SortKey>, a: &Vec<usize>, b: &Vec<usize>) -> (out: Vec<usize>)
    requires
        sorted_idx(key_views(keys@), a@),
        sorted_idx(key_views(keys@), b@),
        in_range(key_views(keys@), a@),
        in_range(key_views(keys@), b@),
        forall|p: int, q: int| 0 <= p < a@.len() && 0 <= q < b@.len() ==> a@[p] != b@[q],
    ensures
        sorted_idx(key_views(keys@), out@),
        in_range(key_views(keys@), out@),
        out@.to_multiset() == a@.to_multiset().add(b@.to_multiset()),
{
    broadcast use vstd::seq_lib::group_to_multiset_ensures;
    broadcast use vstd::multiset::group_multiset_axioms;

    let ghost kv = key_views(keys@);
    let mut out: Vec<usize> = Vec::new();
    let mut i: usize = 0;
    let mut j: usize = 0;
    assert(a@.take(0) =~= Seq::<usize>::empty());
    assert(b@.take(0) =~= Seq::<usize>::empty());
    while i < a.len() || j < b.len()
        invariant
            kv == key_views(keys@),
            kv.len() == keys@.len(),
            sorted_idx(kv, a@),
            sorted_idx(kv, b@),
            in_range(kv, a@),
            in_range(kv, b@),
            forall|p: int, q: int| 0 <= p < a@.len() && 0 <= q < b@.len() ==> a@[p] != b@[q],
            0 <= i <= a@.len(),
            0 <= j <= b@.len(),
            sorted_idx(kv, out@),
            in_range(kv, out@),
            out@.to_multiset() == a@.take(i as int).to_multiset().add(
                b@.take(j as int).to_multiset(),
            ),
            out@.len() > 0 && i < a@.len() ==> idx_lt(kv, out@.last() as int, a@[i as int] as int),
            out@.len() > 0 && j < b@.len() ==> idx_lt(kv, out@.last() as int, b@[j as int] as int),
        decreases a@.len() + b@.len() - i - j,
    {
        let take_a = if i < a.len() && j < b.len() {
            less(keys, a[i], b[j])
        } else {
            i < a.len()
        };
        let ghost old_out = out@;
        let x = if take_a {
            a[i]
        } else {
            b[j]
        };
        proof {
            if take_a && j < b@.len() {
                assert(idx_lt(kv, x as int, b@[j as int] as int));
            }
            if !take_a && i < a@.len() {
                lemma_idx_lt_total(kv, a@[i as int] as int, b@[j as int] as int);
            }
            assert forall|p: int, q: int| 0 <= p < q < old_out.len() + 1 implies idx_lt(
                kv,
                old_out.push(x)[p] as int,
                old_out.push(x)[q] as int,
            ) by {
                if q == old_out.len() && p < q - 1 {
                    lemma_idx_lt_transitive(kv, old_out[p] as int, old_out.last() as int, x as int);
                }
            }
        }
        out.push(x);
        if take_a {
            assert(a@.take(i + 1) =~= a@.take(i as int).push(x));
            i = i + 1;
            proof {
                if j < b@.len() {
                    assert(x == a@[i - 1]);
                    lemma_idx_lt_total(kv, x as int, b@[j as int] as int);
                }
                if i < a@.len() {
                    assert(idx_lt(kv, a@[i - 1] as int, a@[i as int] as int));
                }
                assert(out@ == old_out.push(x));
                vstd::seq_lib::to_multiset_build(old_out, x);
                vstd::seq_lib::to_multiset_build(a@.take(i - 1), x);
                assert(out@.to_multiset() == old_out.to_multiset().insert(x));
                assert(a@.take(i as int).to_multiset() == a@.take(i - 1).to_multiset().insert(x));
                assert(out@.to_multiset() =~= a@.take(i as int).to_multiset().add(
                    b@.take(j as int).to_multiset(),
                ));
            }
        } else {
            assert(b@.take(j + 1) =~= b@.take(j as int).push(x));
            j = j + 1;
            proof {
                if j < b@.len() {
                    assert(idx_lt(kv, b@[j - 1] as int, b@[j as int] as int));
                }
                assert(out@ == old_out.push(x));
                vstd::seq_lib::to_multiset_build(old_out, x);
                vstd::seq_lib::to_multiset_build(b@.take(j - 1), x);
                assert(out@.to_multiset() == old_out.to_multiset().insert(x));
                assert(b@.take(j as int).to_multiset() == b@.take(j - 1).to_multiset().insert(x));
                assert(out@.to_multiset() =~= a@.take(i as int).to_multiset().add(
                    b@.take(j as int).to_multiset(),
                ));
            }
        }
    }
    assert(a@.take(a@.len() as int) =~= a@);
    assert(b@.take(b@.len() as int) =~= b@);
    out
}

/// Sorts the positions `v` by their keys.
fn merge_sort(keys: &Vec<SortKey>, v: Vec<usize>) -> (out: Vec<usize>)
    requires
        in_range(key_views(keys@), v@),
        v@.no_duplicates(),
    ensures
        sorted_idx(key_views(keys@), out@),
        in_range(key_views(keys@), out@),
        out@.to_multiset() == v@.to_multiset(),
    decreases v@.len(),
{
    if v.len() <= 1 {
        return v;
    }
    let mid = v.len() / 2;
    let mut left: Vec<usize> = Vec::new();
    let mut right: Vec<usize> = Vec::new();
    let mut k: usize = 0;
    while k < v.len()
        invariant
            0 <= k <= v@.len(),
            mid < v@.len(),
            k <= mid ==> left@ == v@.take(k as int) && right@.len() == 0,
            k > mid ==> left@ == v@.take(mid as int) && right@ == v@.subrange(mid as int, k as int),
        decreases v@.len() - k,
    {
        if k < mid {
            left.push(v[k]);
            assert(v@.take(k + 1) =~= v@.take(k as int).push(v@[k as int]));
        } else {
            right.push(v[k]);
            assert(v@.subrange(mid as int, k + 1) =~= v@.subrange(mid as int, k as int).push(
                v@[k as int],
            ));
        }
        k = k + 1;
    }
    assert(v@ =~= left@ + right@);
    assert(left@.no_duplicates());
    assert(right@.no_duplicates()) by {
        assert forall|p: int, q: int| 0 <= p < q < right@.len() implies right@[p] != right@[q] by {
            assert(right@[p] == v@[mid + p]);
            assert(right@[q] == v@[mid + q]);
        }
    }
    let sl = merge_sort(keys, left);
    let sr = merge_sort(keys, right);
    proof {
        broadcast use vstd::seq_lib::group_to_multiset_ensures;
        assert forall|p: int, q: int| 0 <= p < sl@.len() && 0 <= q < sr@.len() implies sl@[p]
            != sr@[q] by {
            assert(sl@.to_multiset().count(sl@[p]) > 0);
            assert(left@.contains(sl@[p]));
            assert(sr@.to_multiset().count(sr@[q]) > 0);
            assert(right@.contains(sr@[q]));
            let p2 = choose|p2: int| 0 <= p2 < left@.len() && left@[p2] == sl@[p];
            let q2 = choose|q2: int| 0 <= q2 < right@.len() && right@[q2] == sr@[q];
            assert(v@[p2] == left@[p2]);
            assert(v@[mid + q2] == right@[q2]);
        }
    }
    let out = merge(keys, &sl, &sr);
    proof {
        vstd::seq_lib::lemma_multiset_commutative(left@, right@);
    }
    out
}

/// The positions of `keys`, sorted by key and then by position.
pub fn sort_positions(keys: &Vec<SortKey>) -> (out: Vec<usize>)
    ensures
        sorted_idx(key_views(keys@), out@),
        in_range(key_views(keys@), out@),
        out@.to_multiset() == positions(keys@.len()).to_multiset(),
{
    let mut v: Vec<usize> = Vec::new();
    let mut i: usize = 0;
    while i < keys.len()
        invariant
            0 <= i <= keys@.len(),
            v@ == positions(i as nat),
        decreases keys@.len() - i,
    {
        v.push(i);
        i = i + 1;
        assert(v@ =~= positions(i as nat));
    }
    assert(v@.no_duplicates());
    merge_sort(keys, v)
}

/// `s` is in strictly increasing order by `lt`.
pub open spec fn strictly_sorted<T>(s: Seq<T>, lt: spec_fn(T, T) -> bool) -> bool {
    forall|i: int, j: int| 0 <= i < j < s.len() ==> lt(s[i], s[j])
}

/// `lt` is a strict order.
pub open spec fn strict_order<T>(lt: spec_fn(T, T) -> bool) -> bool {
    &&& forall|x: T| !#[trigger] lt(x, x)
    &&& forall|x: T, y: T| #[trigger] lt(x, y) ==> !lt(y, x)
    &&& forall|x: T, y: T, z: T| #[trigger] lt(x, y) && #[trigger] lt(y, z) ==> lt(x, z)
}

/// Two sequences in strictly increasing order that hold the same elements
/// are equal.
pub proof fn lemma_sorted_unique<T>(a: Seq<T>, b: Seq<T>, lt: spec_fn(T, T) -> bool)
    requires
        strict_order(lt),
        strictly_sorted(a, lt),
        strictly_sorted(b, lt),
        forall|x: T| a.contains(x) <==> b.contains(x),
    ensures
        a == b,
    decreases a.len() + b.len(),
{
    if a.len() == 0 {
        if b.len() > 0 {
            assert(b.contains(b[0]));
        }
        assert(a =~= b);
    } else if b.len() == 0 {
        assert(a.contains(a[0]));
    } else {
        assert(a.contains(a[0]));
        assert(b.contains(b[0]));
        let p = choose|p: int| 0 <= p < a.len() && a[p] == b[0];
        let q = choose|q: int| 0 <= q < b.len() && b[q] == a[0];
        if a[0] != b[0] {
            assert(p > 0 && q > 0);
            assert(lt(a[0], b[0]));
            assert(lt(b[0], a[0]));
        }
        let a1 = a.drop_first();
        let b1 = b.drop_first();
        assert forall|x: T| a1.contains(x) <==> b1.contains(x) by {
            if a1.contains(x) {
                let i = choose|i: int| 0 <= i < a1.len() && a1[i] == x;
                assert(a[i + 1] == x);
                assert(lt(a[0], x));
                assert(b.contains(x));
                let j = choose|j: int| 0 <= j < b.len() && b[j] == x;
                assert(j != 0);
                assert(b1[j - 1] == x);
            }
            if b1.contains(x) {
                let i = choose|i: int| 0 <= i < b1.len() && b1[i] == x;
                assert(b[i + 1] == x);
                assert(lt(b[0], x));
                assert(a.contains(x));
                let j = choose|j: int| 0 <= j < a.len() && a[j] == x;
                assert(j != 0);
                assert(a1[j - 1] == x);
            }
        }
        lemma_sorted_unique(a1, b1, lt);
        assert(a =~= seq![a[0]] + a1);
        assert(b =~= seq![b[0]] + b1);
    }
}

/// The order of positions by key is a strict order.
pub proof fn lemma_idx_order(kv: Seq<(u8, Seq<u8>)>)
    ensures
        strict_order(|i: usize, j: usize| idx_lt(kv, i as int, j as int)),
{
    let lt = |i: usize, j: usize| idx_lt(kv, i as int, j as int);
    assert forall|x: usize| !#[trigger] lt(x, x) by {
        lemma_idx_lt_irreflexive(kv, x as int);
    }
    assert forall|x: usize, y: usize| #[trigger] lt(x, y) implies !lt(y, x) by {
        lemma_idx_lt_asymmetric(kv, x as int, y as int);
    }
    assert forall|x: usize, y: usize, z: usize| #[trigger] lt(x, y) && #[trigger] lt(y, z) implies lt(
        x,
        z,
    ) by {
        lemma_idx_lt_transitive(kv, x as int, y as int, z as int);
    }
}

/// Byte-string order is a strict order.
pub proof fn lemma_lex_order()
    ensures
        strict_order(|a: Seq<u8>, b: Seq<u8>| lex_lt(a, b)),
{
    let lt = |a: Seq<u8>, b: Seq<u8>| lex_lt(a, b);
    assert forall|x: Seq<u8>| !#[trigger] lt(x, x) by {
        lemma_lex_irreflexive(x);
    }
    assert forall|x: Seq<u8>, y: Seq<u8>| #[trigger] lt(x, y) implies !lt(y, x) by {
        lemma_lex_asymmetric(x, y);
    }
    assert forall|x: Seq<u8>, y: Seq<u8>, z: Seq<u8>| #[trigger] lt(x, y) && #[trigger] lt(
        y,
        z,
    ) implies lt(x, z) by {
        lemma_lex_transitive(x, y, z);
    }
}

} // verus!
