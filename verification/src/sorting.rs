//! Stable ordering of a sequence under a strict weak order.
//!
//! The order in which items are shown is described by a permutation of their
//! indices. The permutation is pinned down by one predicate,
//! [`is_stable_order`]: items come out in ascending order, and items that the
//! order does not tell apart keep the order in which they came in.

use vstd::prelude::*;

verus! {

/// A strict weak order with an executable test.
pub trait Ranked {
    /// `self` must come before `other`.
    spec fn before(&self, other: &Self) -> bool;

    /// Tests `before`.
    fn is_before(&self, other: &Self) -> (r: bool)
        ensures
            r == self.before(other),
    ;

    /// `before` is irreflexive and transitive, and whatever is before `b`
    /// is before anything that is not before `b` itself.
    proof fn lemma_strict_weak(a: &Self, b: &Self, c: &Self)
        ensures
            !a.before(a),
            a.before(b) && b.before(c) ==> a.before(c),
            a.before(b) ==> a.before(c) || c.before(b),
    ;
}

/// Index `a` is shown before index `b`: its item comes first in the order,
/// or the order does not tell the two apart and `a` came in first.
pub open spec fn ahead(before: spec_fn(int, int) -> bool, a: int, b: int) -> bool {
    before(a, b) || (!before(b, a) && a < b)
}

/// `pos` lists each of the indices `0..n` that is `chosen`, and no other,
/// in the stable ascending order that `before` induces.
pub open spec fn is_stable_order(
    pos: Seq<int>,
    n: int,
    chosen: spec_fn(int) -> bool,
    before: spec_fn(int, int) -> bool,
) -> bool {
    &&& forall|i: int| 0 <= i < pos.len() ==> 0 <= #[trigger] pos[i] < n && chosen(pos[i])
    &&& forall|v: int| 0 <= v < n && chosen(v) ==> #[trigger] pos.contains(v)
    &&& forall|i: int, j: int|
        0 <= i < j < pos.len() ==> ahead(before, #[trigger] pos[i], #[trigger] pos[j])
}

/// The indices at which there is a key: an item without one takes no part
/// in the order.
pub open spec fn has_key<K>(keys: Seq<Option<K>>) -> spec_fn(int) -> bool {
    |v: int| keys[v].is_some()
}

/// The order that `before` induces on the indices of `keys`.
pub open spec fn key_order<K: Ranked>(keys: Seq<Option<K>>) -> spec_fn(int, int) -> bool {
    |a: int, b: int| keys[a].is_some() && keys[b].is_some() && (keys[a]->0).before(&(keys[b]->0))
}

/// A sequence of indices as mathematical integers.
pub open spec fn as_ints(perm: Seq<usize>) -> Seq<int> {
    perm.map_values(|p: usize| p as int)
}

/// `items` taken in the order that `pos` gives.
pub open spec fn arranged<T>(items: Seq<T>, pos: Seq<int>) -> Seq<T> {
    Seq::new(pos.len(), |i: int| items[pos[i]])
}

/// A stable order never lists an index twice.
pub proof fn lemma_stable_order_distinct(
    pos: Seq<int>,
    n: int,
    chosen: spec_fn(int) -> bool,
    before: spec_fn(int, int) -> bool,
    i: int,
    j: int,
)
    requires
        is_stable_order(pos, n, chosen, before),
        forall|a: int| !#[trigger] before(a, a),
        0 <= i < pos.len(),
        0 <= j < pos.len(),
        i != j,
    ensures
        pos[i] != pos[j],
{
    if i < j {
        assert(ahead(before, pos[i], pos[j]));
    } else {
        assert(ahead(before, pos[j], pos[i]));
    }
}

/// Two stable orders of the same items agree on their first `i` places.
proof fn lemma_stable_orders_agree(
    p: Seq<int>,
    q: Seq<int>,
    n: int,
    chosen: spec_fn(int) -> bool,
    before: spec_fn(int, int) -> bool,
    i: int,
)
    requires
        is_stable_order(p, n, chosen, before),
        is_stable_order(q, n, chosen, before),
        forall|a: int, b: int| #[trigger] before(a, b) ==> !before(b, a),
        0 <= i <= p.len(),
        i <= q.len(),
    ensures
        forall|k: int| 0 <= k < i ==> p[k] == q[k],
    decreases i,
{
    if i > 0 {
        lemma_stable_orders_agree(p, q, n, chosen, before, i - 1);
        let k = i - 1;
        let v = p[k];
        let w = q[k];
        assert(q.contains(v));
        let j = choose|j: int| 0 <= j < q.len() && q[j] == v;
        assert(p.contains(w));
        let m = choose|m: int| 0 <= m < p.len() && p[m] == w;
        assert forall|a: int| !#[trigger] before(a, a) by {
            if before(a, a) {
                assert(!before(a, a));
            }
        }
        if j < k {
            lemma_stable_order_distinct(p, n, chosen, before, j, k);
        } else if m < k {
            lemma_stable_order_distinct(q, n, chosen, before, m, k);
        } else if j > k && m > k {
            assert(ahead(before, q[k], q[j]));
            assert(ahead(before, p[k], p[m]));
        }
    }
}

/// The stable order is unique: an order that does not run both ways between
/// two items leaves one way only to list them.
pub proof fn lemma_stable_order_unique(
    p: Seq<int>,
    q: Seq<int>,
    n: int,
    chosen: spec_fn(int) -> bool,
    before: spec_fn(int, int) -> bool,
)
    requires
        is_stable_order(p, n, chosen, before),
        is_stable_order(q, n, chosen, before),
        forall|a: int, b: int| #[trigger] before(a, b) ==> !before(b, a),
    ensures
        p == q,
{
    assert forall|a: int| !#[trigger] before(a, a) by {
        if before(a, a) {
            assert(!before(a, a));
        }
    }
    let short = if p.len() <= q.len() {
        p.len() as int
    } else {
        q.len() as int
    };
    lemma_stable_orders_agree(p, q, n, chosen, before, short);
    if p.len() < q.len() {
        let x = q[short];
        assert(p.contains(x));
        let m = choose|m: int| 0 <= m < p.len() && p[m] == x;
        lemma_stable_order_distinct(q, n, chosen, before, m, short);
    } else if q.len() < p.len() {
        let x = p[short];
        assert(q.contains(x));
        let m = choose|m: int| 0 <= m < q.len() && q[m] == x;
        lemma_stable_order_distinct(p, n, chosen, before, m, short);
    }
    assert(p =~= q);
}

/// A stable order stays one when the choice and the order are put in other
/// words: only which indices of `0..n` are chosen counts, and which of the
/// chosen ones comes before which.
pub proof fn lemma_stable_order_same(
    pos: Seq<int>,
    n: int,
    chosen: spec_fn(int) -> bool,
    before: spec_fn(int, int) -> bool,
    chosen_too: spec_fn(int) -> bool,
    before_too: spec_fn(int, int) -> bool,
)
    requires
        is_stable_order(pos, n, chosen, before),
        forall|v: int| 0 <= v < n ==> #[trigger] chosen(v) == chosen_too(v),
        forall|a: int, b: int|
            0 <= a < n && 0 <= b < n && chosen(a) && chosen(b) ==> #[trigger] before(a, b)
                == before_too(a, b),
    ensures
        is_stable_order(pos, n, chosen_too, before_too),
{
    assert forall|i: int| 0 <= i < pos.len() implies 0 <= #[trigger] pos[i] < n && chosen_too(
        pos[i],
    ) by {
        assert(chosen(pos[i]) == chosen_too(pos[i]));
    }
    assert forall|v: int| 0 <= v < n && chosen_too(v) implies #[trigger] pos.contains(v) by {
        assert(chosen(v) == chosen_too(v));
    }
    assert forall|i: int, j: int| 0 <= i < j < pos.len() implies ahead(
        before_too,
        #[trigger] pos[i],
        #[trigger] pos[j],
    ) by {
        assert(ahead(before, pos[i], pos[j]));
        assert(before(pos[i], pos[j]) == before_too(pos[i], pos[j]));
        assert(before(pos[j], pos[i]) == before_too(pos[j], pos[i]));
    }
}

/// Whether the key at `a` is before the key at `b`.
fn key_is_before<K: Ranked>(keys: &Vec<Option<K>>, a: usize, b: usize) -> (r: bool)
    requires
        a < keys.len(),
        b < keys.len(),
    ensures
        r == key_order(keys@)(a as int, b as int),
{
    match (&keys[a], &keys[b]) {
        (Some(x), Some(y)) => x.is_before(y),
        _ => false,
    }
}

/// The indices at which `keys` holds a key, in the stable ascending order of
/// the keys.
#[verifier::rlimit(40)]
pub fn stable_order<K: Ranked>(keys: &Vec<Option<K>>) -> (pos: Vec<usize>)
    ensures
        is_stable_order(as_ints(pos@), keys.len() as int, has_key(keys@), key_order(keys@)),
{
    let n: usize = keys.len();
    let ghost order = key_order(keys@);
    let mut pos: Vec<usize> = Vec::new();
    let mut k: usize = 0;
    while k < n
        invariant
            k <= n,
            n == keys.len(),
            order == key_order(keys@),
            pos.len() <= k,
            forall|i: int| 0 <= i < pos.len() ==> (#[trigger] pos@[i]) < k && keys@[pos@[i] as int].is_some(),
            forall|v: usize| v < k && keys@[v as int].is_some() ==> #[trigger] pos@.contains(v),
            forall|i: int, j: int|
                0 <= i < j < pos.len() ==> ahead(
                    order,
                    #[trigger] pos@[i] as int,
                    #[trigger] pos@[j] as int,
                ),
        decreases n - k,
    {
        if keys[k].is_some() {
            let len: usize = pos.len();
            let mut lo: usize = 0;
            let mut hi: usize = len;
            while lo < hi
                invariant
                    lo <= hi <= len,
                    len == pos.len(),
                    len <= k < n,
                    n == keys.len(),
                    order == key_order(keys@),
                    keys@[k as int].is_some(),
                    forall|i: int|
                        0 <= i < len ==> (#[trigger] pos@[i]) < k && keys@[pos@[i] as int].is_some(),
                    forall|i: int, j: int|
                        0 <= i < j < len ==> ahead(
                            order,
                            #[trigger] pos@[i] as int,
                            #[trigger] pos@[j] as int,
                        ),
                    forall|q: int| 0 <= q < lo ==> !order(k as int, #[trigger] pos@[q] as int),
                    forall|r: int| hi <= r < len ==> order(k as int, #[trigger] pos@[r] as int),
                decreases hi - lo,
            {
                let mid: usize = lo + (hi - lo) / 2;
                let at: usize = pos[mid];
                if key_is_before(keys, k, at) {
                    proof {
                        assert forall|r: int| mid <= r < len implies order(
                            k as int,
                            #[trigger] pos@[r] as int,
                        ) by {
                            if r > mid {
                                assert(ahead(order, pos@[mid as int] as int, pos@[r] as int));
                                K::lemma_strict_weak(
                                    &(keys@[k as int]->0),
                                    &(keys@[at as int]->0),
                                    &(keys@[pos@[r] as int]->0),
                                );
                            }
                        }
                    }
                    hi = mid;
                } else {
                    proof {
                        assert forall|q: int| 0 <= q < mid + 1 implies !order(
                            k as int,
                            #[trigger] pos@[q] as int,
                        ) by {
                            if q < mid {
                                assert(ahead(order, pos@[q] as int, pos@[mid as int] as int));
                                K::lemma_strict_weak(
                                    &(keys@[k as int]->0),
                                    &(keys@[pos@[q] as int]->0),
                                    &(keys@[at as int]->0),
                                );
                            }
                        }
                    }
                    lo = mid + 1;
                }
            }
            let ghost before_insert = pos@;
            pos.insert(lo, k);
            proof {
                assert forall|i: int| 0 <= i < pos.len() implies (#[trigger] pos@[i]) < k + 1
                    && keys@[pos@[i] as int].is_some() by {
                    if i < lo {
                        assert(pos@[i] == before_insert[i]);
                    } else if i > lo {
                        assert(pos@[i] == before_insert[i - 1]);
                    }
                }
                assert forall|v: usize|
                    v < k + 1 && keys@[v as int].is_some() implies #[trigger] pos@.contains(v) by {
                    if v < k {
                        assert(before_insert.contains(v));
                        let at = choose|at: int| 0 <= at < len && before_insert[at] == v;
                        if at < lo {
                            assert(pos@[at] == v);
                        } else {
                            assert(pos@[at + 1] == v);
                        }
                    } else {
                        assert(pos@[lo as int] == v);
                    }
                }
                assert forall|i: int, j: int| 0 <= i < j < pos.len() implies ahead(
                    order,
                    #[trigger] pos@[i] as int,
                    #[trigger] pos@[j] as int,
                ) by {
                    let a = if i < lo {
                        i
                    } else {
                        i - 1
                    };
                    let b = if j < lo {
                        j
                    } else {
                        j - 1
                    };
                    if i != lo {
                        assert(pos@[i] == before_insert[a]);
                    }
                    if j != lo {
                        assert(pos@[j] == before_insert[b]);
                    }
                    if i == lo {
                        assert(order(k as int, before_insert[b] as int));
                    } else if j == lo {
                        assert(!order(k as int, before_insert[a] as int));
                        assert(before_insert[a] < k);
                    } else {
                        assert(ahead(order, before_insert[a] as int, before_insert[b] as int));
                    }
                }
            }
        }
        k += 1;
    }
    proof {
        let ints = as_ints(pos@);
        assert forall|i: int| 0 <= i < ints.len() implies 0 <= #[trigger] ints[i] < n && has_key(
            keys@,
        )(ints[i]) by {
            assert(pos@[i] < n);
        }
        assert forall|v: int| 0 <= v < n && has_key(keys@)(v) implies #[trigger] ints.contains(
            v,
        ) by {
            assert(pos@.contains(v as usize));
            let at = choose|at: int| 0 <= at < pos.len() && pos@[at] == v as usize;
            assert(ints[at] == v);
        }
        assert forall|i: int, j: int| 0 <= i < j < ints.len() implies ahead(
            order,
            #[trigger] ints[i],
            #[trigger] ints[j],
        ) by {
            assert(ahead(order, pos@[i] as int, pos@[j] as int));
        }
    }
    pos
}

} // verus!
