//! The order in which the entries of a layer are written: by the bytes of
//! their paths, and where paths are the same, as they came.

use crate::path::{bytes_before_or_equal, bytes_le, lemma_bytes_le_total, lemma_bytes_le_trans};
use vstd::prelude::*;

verus! {

/// The order `order` with `k` put behind the last member whose path does not
/// come after its own.
pub open spec fn insert_sorted(order: Seq<int>, paths: Seq<Seq<u8>>, k: int) -> Seq<int>
    decreases order.len(),
{
    if order.len() == 0 {
        seq![k]
    } else if bytes_le(paths[order.last()], paths[k]) {
        order.push(k)
    } else {
        insert_sorted(order.drop_last(), paths, k).push(order.last())
    }
}

/// The first `n` places of `paths` in the order of their paths.
pub open spec fn sorted_prefix(paths: Seq<Seq<u8>>, n: int) -> Seq<int>
    decreases n,
{
    if n <= 0 {
        Seq::empty()
    } else {
        insert_sorted(sorted_prefix(paths, n - 1), paths, n - 1)
    }
}

/// The places of `paths` in the order of their paths; places with the same
/// path keep their order.
pub open spec fn sorted_order(paths: Seq<Seq<u8>>) -> Seq<int> {
    sorted_prefix(paths, paths.len() as int)
}

/// Whether `order` goes up by path, and by place where paths are the same.
pub open spec fn is_sorted(order: Seq<int>, paths: Seq<Seq<u8>>) -> bool {
    forall|p: int, q: int|
        0 <= p < q < order.len() ==> bytes_le(
            paths[#[trigger] order[p]],
            paths[#[trigger] order[q]],
        ) && (paths[order[p]] == paths[order[q]] ==> order[p] < order[q])
}

/// Whether `order` names each of the places `0..n` once.
pub open spec fn is_permutation(order: Seq<int>, n: int) -> bool {
    &&& order.len() == n
    &&& forall|p: int| 0 <= p < order.len() ==> 0 <= #[trigger] order[p] < n
    &&& forall|k: int| 0 <= k < n ==> #[trigger] order.contains(k)
    &&& forall|p: int, q: int|
        0 <= p < q < order.len() ==> #[trigger] order[p] != #[trigger] order[q]
}

/// Putting the next place into a sorted order of the places before it gives a
/// sorted order of one place more.
proof fn lemma_insert_sorted(order: Seq<int>, paths: Seq<Seq<u8>>, k: int)
    requires
        0 <= k < paths.len(),
        is_permutation(order, k),
        is_sorted(order, paths),
    ensures
        is_permutation(insert_sorted(order, paths, k), k + 1),
        is_sorted(insert_sorted(order, paths, k), paths),
    decreases order.len(),
{
    let out = insert_sorted(order, paths, k);
    if order.len() == 0 {
        assert(out[0] == k);
        assert forall|j: int| 0 <= j < k + 1 implies #[trigger] out.contains(j) by {
            assert(out[0] == j);
        }
    } else if bytes_le(paths[order.last()], paths[k]) {
        assert forall|p: int, q: int| 0 <= p < q < out.len() implies bytes_le(
            paths[#[trigger] out[p]],
            paths[#[trigger] out[q]],
        ) && (paths[out[p]] == paths[out[q]] ==> out[p] < out[q]) by {
            if q == order.len() {
                assert(out[p] == order[p]);
                if p < order.len() - 1 {
                    assert(bytes_le(paths[order[p]], paths[order[order.len() - 1]]));
                    lemma_bytes_le_trans(paths[order[p]], paths[order.last()], paths[k]);
                }
            } else {
                assert(out[p] == order[p] && out[q] == order[q]);
            }
        }
        assert forall|j: int| 0 <= j < k + 1 implies #[trigger] out.contains(j) by {
            if j < k {
                assert(order.contains(j));
                let p = choose|p: int| 0 <= p < order.len() && order[p] == j;
                assert(out[p] == j);
            } else {
                assert(out[order.len() as int] == j);
            }
        }
    } else {
        let rest = order.drop_last();
        let last = order.last();
        let inner = insert_sorted(rest, paths, k);
        // The places in `rest` are not `0..k-1` in general, so the induction
        // runs over a statement about members, not about `is_permutation`.
        lemma_insert_members(rest, paths, k);
        lemma_insert_keeps_order(rest, paths, k);
        lemma_bytes_le_total(paths[last], paths[k]);
        assert(out == inner.push(last));
        assert(inner.len() == order.len());
        assert forall|p: int| 0 <= p < out.len() implies 0 <= #[trigger] out[p] < k + 1 by {
            if p < inner.len() {
                assert(inner.contains(inner[p]));
                if inner[p] != k {
                    assert(rest.contains(inner[p]));
                    let a = choose|a: int| 0 <= a < rest.len() && rest[a] == inner[p];
                    assert(order[a] == rest[a]);
                }
            }
        }
        assert forall|j: int| 0 <= j < k + 1 implies #[trigger] out.contains(j) by {
            if j == last {
                assert(out[inner.len() as int] == j);
            } else {
                if j < k {
                    assert(order.contains(j));
                    let a = choose|a: int| 0 <= a < order.len() && order[a] == j;
                    assert(rest[a] == j);
                    assert(rest.contains(j));
                }
                assert(inner.contains(j));
                let p = choose|p: int| 0 <= p < inner.len() && inner[p] == j;
                assert(out[p] == j);
            }
        }
        assert forall|p: int, q: int| 0 <= p < q < out.len() implies #[trigger] out[p]
            != #[trigger] out[q] by {
            if q == inner.len() {
                assert(inner.contains(inner[p]));
                if inner[p] != k {
                    assert(rest.contains(inner[p]));
                    let a = choose|a: int| 0 <= a < rest.len() && rest[a] == inner[p];
                    assert(order[a] == rest[a]);
                    assert(order[a] != order[order.len() - 1]);
                }
            } else {
                assert(out[p] == inner[p] && out[q] == inner[q]);
            }
        }
        assert forall|p: int, q: int| 0 <= p < q < out.len() implies bytes_le(
            paths[#[trigger] out[p]],
            paths[#[trigger] out[q]],
        ) && (paths[out[p]] == paths[out[q]] ==> out[p] < out[q]) by {
            if q == inner.len() {
                assert(out[p] == inner[p]);
                assert(inner.contains(inner[p]));
                if inner[p] == k {
                    if paths[k] == paths[last] {
                        assert(bytes_le(paths[last], paths[k]));
                    }
                } else {
                    assert(rest.contains(inner[p]));
                    let a = choose|a: int| 0 <= a < rest.len() && rest[a] == inner[p];
                    assert(order[a] == rest[a]);
                    assert(bytes_le(paths[order[a]], paths[order[order.len() - 1]]));
                }
            } else {
                assert(out[p] == inner[p] && out[q] == inner[q]);
            }
        }
    }
}

/// What `insert_sorted` holds: what the order held, and the new place.
proof fn lemma_insert_members(order: Seq<int>, paths: Seq<Seq<u8>>, k: int)
    ensures
        insert_sorted(order, paths, k).len() == order.len() + 1,
        forall|j: int| #[trigger]
            insert_sorted(order, paths, k).contains(j) <==> j == k || order.contains(j),
    decreases order.len(),
{
    let out = insert_sorted(order, paths, k);
    if order.len() == 0 {
        assert(out[0] == k);
    } else if bytes_le(paths[order.last()], paths[k]) {
        assert forall|j: int| #[trigger] out.contains(j) <==> j == k || order.contains(j) by {
            if order.contains(j) {
                let p = choose|p: int| 0 <= p < order.len() && order[p] == j;
                assert(out[p] == j);
            }
            if j == k {
                assert(out[order.len() as int] == k);
            }
            if out.contains(j) {
                let p = choose|p: int| 0 <= p < out.len() && out[p] == j;
                if p < order.len() {
                    assert(order[p] == j);
                }
            }
        }
    } else {
        let rest = order.drop_last();
        let inner = insert_sorted(rest, paths, k);
        lemma_insert_members(rest, paths, k);
        assert forall|j: int| #[trigger] out.contains(j) <==> j == k || order.contains(j) by {
            if order.contains(j) {
                let p = choose|p: int| 0 <= p < order.len() && order[p] == j;
                if p < rest.len() {
                    assert(rest[p] == j);
                    assert(rest.contains(j));
                    assert(inner.contains(j));
                    let a = choose|a: int| 0 <= a < inner.len() && inner[a] == j;
                    assert(out[a] == j);
                } else {
                    assert(out[inner.len() as int] == j);
                }
            }
            if j == k {
                assert(inner.contains(k));
                let a = choose|a: int| 0 <= a < inner.len() && inner[a] == k;
                assert(out[a] == k);
            }
            if out.contains(j) {
                let p = choose|p: int| 0 <= p < out.len() && out[p] == j;
                if p < inner.len() {
                    assert(inner[p] == j);
                    assert(inner.contains(j));
                    if j != k {
                        assert(rest.contains(j));
                        let a = choose|a: int| 0 <= a < rest.len() && rest[a] == j;
                        assert(order[a] == j);
                    }
                } else {
                    assert(order[order.len() - 1] == j);
                }
            }
        }
    }
}

/// `insert_sorted` keeps a sorted order sorted, where the new place is larger
/// than those that the order holds.
proof fn lemma_insert_keeps_order(order: Seq<int>, paths: Seq<Seq<u8>>, k: int)
    requires
        is_sorted(order, paths),
        forall|p: int| 0 <= p < order.len() ==> #[trigger] order[p] < k,
    ensures
        is_sorted(insert_sorted(order, paths, k), paths),
    decreases order.len(),
{
    let out = insert_sorted(order, paths, k);
    if order.len() == 0 {
    } else if bytes_le(paths[order.last()], paths[k]) {
        assert forall|p: int, q: int| 0 <= p < q < out.len() implies bytes_le(
            paths[#[trigger] out[p]],
            paths[#[trigger] out[q]],
        ) && (paths[out[p]] == paths[out[q]] ==> out[p] < out[q]) by {
            if q == order.len() {
                assert(out[p] == order[p]);
                if p < order.len() - 1 {
                    assert(bytes_le(paths[order[p]], paths[order[order.len() - 1]]));
                    lemma_bytes_le_trans(paths[order[p]], paths[order.last()], paths[k]);
                }
            } else {
                assert(out[p] == order[p] && out[q] == order[q]);
            }
        }
    } else {
        let rest = order.drop_last();
        let last = order.last();
        let inner = insert_sorted(rest, paths, k);
        assert forall|p: int, q: int| 0 <= p < q < rest.len() implies bytes_le(
            paths[#[trigger] rest[p]],
            paths[#[trigger] rest[q]],
        ) && (paths[rest[p]] == paths[rest[q]] ==> rest[p] < rest[q]) by {
            assert(rest[p] == order[p] && rest[q] == order[q]);
        }
        assert forall|p: int| 0 <= p < rest.len() implies #[trigger] rest[p] < k by {
            assert(rest[p] == order[p]);
        }
        lemma_insert_keeps_order(rest, paths, k);
        lemma_insert_members(rest, paths, k);
        lemma_bytes_le_total(paths[last], paths[k]);
        assert forall|p: int, q: int| 0 <= p < q < out.len() implies bytes_le(
            paths[#[trigger] out[p]],
            paths[#[trigger] out[q]],
        ) && (paths[out[p]] == paths[out[q]] ==> out[p] < out[q]) by {
            if q == inner.len() {
                assert(out[p] == inner[p]);
                assert(inner.contains(inner[p]));
                if inner[p] == k {
                    if paths[k] == paths[last] {
                        assert(bytes_le(paths[last], paths[k]));
                    }
                } else {
                    assert(rest.contains(inner[p]));
                    let a = choose|a: int| 0 <= a < rest.len() && rest[a] == inner[p];
                    assert(order[a] == rest[a]);
                    assert(bytes_le(paths[order[a]], paths[order[order.len() - 1]]));
                }
            } else {
                assert(out[p] == inner[p] && out[q] == inner[q]);
            }
        }
    }
}

/// The sorted order of the first `n` places names each of them once, and
/// goes up by path and, where paths are the same, by place.
pub proof fn lemma_sorted_prefix(paths: Seq<Seq<u8>>, n: int)
    requires
        0 <= n <= paths.len(),
    ensures
        is_permutation(sorted_prefix(paths, n), n),
        is_sorted(sorted_prefix(paths, n), paths),
    decreases n,
{
    if n > 0 {
        lemma_sorted_prefix(paths, n - 1);
        lemma_insert_sorted(sorted_prefix(paths, n - 1), paths, n - 1);
    }
}

/// The sorted order names every place once, and goes up by path and, where
/// paths are the same, by place.
pub proof fn lemma_sorted_order(paths: Seq<Seq<u8>>)
    ensures
        is_permutation(sorted_order(paths), paths.len() as int),
        is_sorted(sorted_order(paths), paths),
{
    lemma_sorted_prefix(paths, paths.len() as int);
}

/// Where the new place goes: behind a member whose path does not come after
/// its own, and before members whose paths all come after it.
proof fn lemma_insert_at(order: Seq<int>, paths: Seq<Seq<u8>>, k: int, pos: int)
    requires
        0 <= pos <= order.len(),
        forall|q: int| pos <= q < order.len() ==> !bytes_le(paths[#[trigger] order[q]], paths[k]),
        pos > 0 ==> bytes_le(paths[order[pos - 1]], paths[k]),
    ensures
        insert_sorted(order, paths, k) == order.take(pos).push(k) + order.skip(pos),
    decreases order.len() - pos,
{
    if pos == order.len() {
        assert(order.take(pos) =~= order);
        assert(order.take(pos).push(k) + order.skip(pos) =~= order.push(k));
        if order.len() == 0 {
            assert(order.push(k) =~= seq![k]);
        }
    } else {
        let rest = order.drop_last();
        assert(!bytes_le(paths[order[order.len() - 1]], paths[k]));
        assert forall|q: int| pos <= q < rest.len() implies !bytes_le(
            paths[#[trigger] rest[q]],
            paths[k],
        ) by {
            assert(rest[q] == order[q]);
        }
        if pos > 0 {
            assert(rest[pos - 1] == order[pos - 1]);
        }
        lemma_insert_at(rest, paths, k, pos);
        assert((rest.take(pos).push(k) + rest.skip(pos)).push(order.last()) =~= order.take(
            pos,
        ).push(k) + order.skip(pos));
    }
}

/// Finds where the place `k` goes in a sorted order of the places before it.
fn insert_position(paths: &Vec<Vec<u8>>, order: &Vec<usize>, k: usize) -> (pos: usize)
    requires
        k < paths@.len(),
        forall|p: int| 0 <= p < order@.len() ==> #[trigger] order@[p] < k,
        is_sorted(
            Seq::new(order@.len(), |p: int| order@[p] as int),
            Seq::new(paths@.len(), |i: int| paths@[i]@),
        ),
    ensures
        pos <= order@.len(),
        insert_sorted(
            Seq::new(order@.len(), |p: int| order@[p] as int),
            Seq::new(paths@.len(), |i: int| paths@[i]@),
            k as int,
        ) == Seq::new(order@.len(), |p: int| order@[p] as int).take(pos as int).push(k as int)
            + Seq::new(order@.len(), |p: int| order@[p] as int).skip(pos as int),
{
    let ghost keys = Seq::new(paths@.len(), |i: int| paths@[i]@);
    let ghost places = Seq::new(order@.len(), |p: int| order@[p] as int);
    let mut lo: usize = 0;
    let mut hi: usize = order.len();
    // Most entries come in the order of their paths: look at the end first.
    if hi > 0 && bytes_before_or_equal(paths[order[hi - 1]].as_slice(), paths[k].as_slice()) {
        lo = hi;
        proof {
            assert(keys[places[hi - 1]] == paths@[order@[hi - 1] as int]@);
        }
    }
    while lo < hi
        invariant
            lo <= hi <= order@.len(),
            k < paths@.len(),
            keys == Seq::new(paths@.len(), |i: int| paths@[i]@),
            places == Seq::new(order@.len(), |p: int| order@[p] as int),
            forall|p: int| 0 <= p < order@.len() ==> #[trigger] order@[p] < k,
            is_sorted(places, keys),
            lo > 0 ==> bytes_le(keys[places[lo - 1]], keys[k as int]),
            forall|q: int| hi <= q < places.len() ==> !bytes_le(
                keys[#[trigger] places[q]],
                keys[k as int],
            ),
        decreases hi - lo,
    {
        let mid = lo + (hi - lo) / 2;
        assert(keys[places[mid as int]] == paths@[order@[mid as int] as int]@);
        if bytes_before_or_equal(paths[order[mid]].as_slice(), paths[k].as_slice()) {
            lo = mid + 1;
        } else {
            proof {
                assert forall|q: int| mid <= q < places.len() implies !bytes_le(
                    keys[#[trigger] places[q]],
                    keys[k as int],
                ) by {
                    if q > mid && bytes_le(keys[places[q]], keys[k as int]) {
                        assert(bytes_le(keys[places[mid as int]], keys[places[q]]));
                        lemma_bytes_le_trans(
                            keys[places[mid as int]],
                            keys[places[q]],
                            keys[k as int],
                        );
                    }
                }
            }
            hi = mid;
        }
    }
    proof {
        lemma_insert_at(places, keys, k as int, lo as int);
    }
    lo
}

/// Sorts the places of `paths` by their paths. Places with the same path keep
/// their order.
pub fn sort_by_path(paths: &Vec<Vec<u8>>) -> (r: Vec<usize>)
    ensures
        r@.len() == paths@.len(),
        forall|p: int| 0 <= p < r@.len() ==> #[trigger] r@[p] < paths@.len(),
        Seq::new(r@.len(), |p: int| r@[p] as int) == sorted_order(
            Seq::new(paths@.len(), |i: int| paths@[i]@),
        ),
{
    let ghost keys = Seq::new(paths@.len(), |i: int| paths@[i]@);
    let mut order: Vec<usize> = Vec::new();
    let mut k: usize = 0;
    proof {
        assert(Seq::new(order@.len(), |p: int| order@[p] as int) =~= sorted_prefix(keys, 0));
    }
    while k < paths.len()
        invariant
            k <= paths@.len(),
            keys == Seq::new(paths@.len(), |i: int| paths@[i]@),
            order@.len() == k,
            forall|p: int| 0 <= p < order@.len() ==> #[trigger] order@[p] < k,
            Seq::new(order@.len(), |p: int| order@[p] as int) == sorted_prefix(keys, k as int),
        decreases paths@.len() - k,
    {
        let ghost before = Seq::new(order@.len(), |p: int| order@[p] as int);
        proof {
            lemma_sorted_prefix(keys, k as int);
        }
        let pos = insert_position(paths, &order, k);
        order.insert(pos, k);
        proof {
            assert(Seq::new(order@.len(), |p: int| order@[p] as int) =~= before.take(
                pos as int,
            ).push(k as int) + before.skip(pos as int));
        }
        k += 1;
    }
    order
}

} // verus!
