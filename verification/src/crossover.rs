//! Order-one crossover: a child takes a slice of one parent as it stands
//! and the other cities in the order in which the second parent visits them.
//!
//! The slice is `parent_a[i..j]`. The second parent is read from position
//! `j` on, wrapping at its end, and its cities that are not in the slice fill
//! the child from position `j` on, wrapping likewise.

use vstd::prelude::*;
use crate::genome::{is_permutation, lemma_all_cities_covered, lemma_distinct_cities};
use crate::random::{random_below, random_cut_points};

verus! {

/// The cities of `b` from position `start` to its end, then those before
/// `start`.
pub open spec fn rotation(b: Seq<usize>, start: int) -> Seq<usize> {
    b.subrange(start, b.len() as int) + b.subrange(0, start)
}

/// The test that a city is none of `kept`.
pub open spec fn outside(kept: Seq<usize>) -> spec_fn(usize) -> bool {
    |c: usize| !kept.contains(c)
}

/// The cities that the child takes from `b`: those outside `a[i..j]`, in the
/// order in which `b` visits them from position `j` on.
pub open spec fn remaining(a: Seq<usize>, b: Seq<usize>, i: int, j: int) -> Seq<usize> {
    rotation(b, j).filter(outside(a.subrange(i, j)))
}

/// The child of `a` and `b` for the cut points `i` and `j`.
pub open spec fn crossover_child(a: Seq<usize>, b: Seq<usize>, i: int, j: int) -> Seq<usize> {
    let rest = remaining(a, b, i, j);
    Seq::new(
        a.len(),
        |p: int|
            if i <= p < j {
                a[p]
            } else if p >= j {
                rest[p - j]
            } else {
                rest[p + a.len() - j]
            },
    )
}

/// Filtering keeps a sequence free of duplicates.
proof fn lemma_filter_no_duplicates(s: Seq<usize>, pred: spec_fn(usize) -> bool)
    requires
        s.no_duplicates(),
    ensures
        s.filter(pred).no_duplicates(),
    decreases s.len(),
{
    reveal(Seq::filter);
    if s.len() > 0 {
        let front = s.drop_last();
        lemma_filter_no_duplicates(front, pred);
        if pred(s.last()) {
            let kept = front.filter(pred);
            assert forall|k: int| 0 <= k < kept.len() implies kept[k] != s.last() by {
                assert(kept.contains(kept[k]));
                front.lemma_filter_contains_rev(pred, kept[k]);
                let m = choose|m: int| 0 <= m < front.len() && front[m] == kept[k];
                assert(s[m] == kept[k]);
            }
        }
    }
}

/// The child of two permutations is a permutation, which takes as many
/// cities from the second parent as the slice leaves open.
pub proof fn lemma_crossover_child_is_permutation(a: Seq<usize>, b: Seq<usize>, i: int, j: int)
    requires
        is_permutation(a, a.len()),
        is_permutation(b, a.len()),
        0 <= i <= j <= a.len(),
    ensures
        remaining(a, b, i, j).len() == a.len() - (j - i),
        is_permutation(crossover_child(a, b, i, j), a.len()),
{
    let n = a.len();
    let kept = a.subrange(i, j);
    let rot = rotation(b, j);
    let pred = outside(kept);
    let rest = remaining(a, b, i, j);
    assert(rot.len() == n);
    assert forall|k: int| 0 <= k < n implies #[trigger] rot[k] == b[if k < n - j {
        j + k
    } else {
        k - (n - j)
    }] by {}
    assert(rot.no_duplicates());
    lemma_filter_no_duplicates(rot, pred);
    assert forall|m: int| 0 <= m < rest.len() implies !kept.contains(#[trigger] rest[m])
        && rest[m] < n by {
        rot.lemma_filter_pred(pred, m);
        assert(rest.contains(rest[m]));
        rot.lemma_filter_contains_rev(pred, rest[m]);
        let k = choose|k: int| 0 <= k < rot.len() && rot[k] == rest[m];
        assert(rot[k] < n);
    }
    let all = kept + rest;
    assert(all.no_duplicates()) by {
        assert forall|x: int, y: int| 0 <= x < all.len() && 0 <= y < all.len() && x != y implies all[x]
            != all[y] by {
            if x < kept.len() && y < kept.len() {
                assert(all[x] == a[i + x] && all[y] == a[i + y]);
            } else if x < kept.len() {
                assert(kept.contains(all[x]));
                assert(all[y] == rest[y - kept.len()]);
            } else if y < kept.len() {
                assert(kept.contains(all[y]));
                assert(all[x] == rest[x - kept.len()]);
            } else {
                assert(all[x] == rest[x - kept.len()]);
                assert(all[y] == rest[y - kept.len()]);
            }
        }
    }
    assert forall|x: int| 0 <= x < all.len() implies (#[trigger] all[x]) < n by {
        if x < kept.len() {
            assert(all[x] == a[i + x]);
        } else {
            assert(all[x] == rest[x - kept.len()]);
        }
    }
    lemma_distinct_cities(all, n);
    lemma_distinct_cities(b, n);
    assert forall|v: usize| v < n implies all.contains(v) by {
        if kept.contains(v) {
            let k = choose|k: int| 0 <= k < kept.len() && kept[k] == v;
            assert(all[k] == v);
        } else {
            assert(b.contains(v));
            let k = choose|k: int| 0 <= k < b.len() && b[k] == v;
            let r = if k >= j {
                k - j
            } else {
                k + n - j
            };
            assert(rot[r] == v);
            rot.lemma_filter_contains(pred, r);
            let m = choose|m: int| 0 <= m < rest.len() && rest[m] == v;
            assert(all[kept.len() + m] == v);
        }
    }
    lemma_all_cities_covered(all, n);
    assert(rest.len() == n - (j - i));
    let child = crossover_child(a, b, i, j);
    assert forall|p: int| 0 <= p < child.len() implies (#[trigger] child[p]) < n by {
        if i <= p < j {
        } else if p >= j {
            assert(child[p] == rest[p - j]);
        } else {
            assert(child[p] == rest[p + n - j]);
        }
    }
    assert forall|p: int, q: int| 0 <= p < q < child.len() implies child[p] != child[q] by {
        let in_p = i <= p < j;
        let in_q = i <= q < j;
        let kp = if p >= j {
            p - j
        } else {
            p + n - j
        };
        let kq = if q >= j {
            q - j
        } else {
            q + n - j
        };
        if in_p && in_q {
        } else if in_p {
            assert(kept[p - i] == a[p]);
            assert(kept.contains(a[p]));
            assert(child[q] == rest[kq]);
        } else if in_q {
            assert(kept[q - i] == a[q]);
            assert(kept.contains(a[q]));
            assert(child[p] == rest[kp]);
        } else {
            assert(child[p] == rest[kp]);
            assert(child[q] == rest[kq]);
            assert(kp != kq);
        }
    }
}

/// The order-one crossover of two tours for given cut points: the child
/// holds `parent_a[i..j]` in place, and the other cities in the order in
/// which `parent_b` visits them from position `j` on.
pub fn crossover_at(parent_a: &Vec<usize>, parent_b: &Vec<usize>, i: usize, j: usize) -> (child:
    Vec<usize>)
    requires
        is_permutation(parent_a@, parent_a@.len()),
        is_permutation(parent_b@, parent_a@.len()),
        i <= j <= parent_a@.len(),
    ensures
        child@ == crossover_child(parent_a@, parent_b@, i as int, j as int),
        is_permutation(child@, parent_a@.len()),
{
    let n = parent_a.len();
    let ghost a = parent_a@;
    let ghost b = parent_b@;
    let ghost kept = a.subrange(i as int, j as int);
    let ghost rot = rotation(b, j as int);
    let ghost pred = outside(kept);
    let mut used: Vec<bool> = Vec::new();
    let mut c: usize = 0;
    while c < n
        invariant
            c <= n,
            used@.len() == c,
            forall|k: int| 0 <= k < c ==> !used@[k],
        decreases n - c,
    {
        used.push(false);
        c += 1;
    }
    let mut p: usize = i;
    assert(a.subrange(i as int, i as int) =~= Seq::<usize>::empty());
    while p < j
        invariant
            i <= p <= j <= n,
            n == a.len(),
            a == parent_a@,
            used@.len() == n,
            is_permutation(a, n as nat),
            forall|k: int|
                0 <= k < n ==> (used@[k] <==> a.subrange(i as int, p as int).contains(k as usize)),
        decreases j - p,
    {
        let city = parent_a[p];
        let ghost marks = used@;
        used.set(city, true);
        proof {
            let before = a.subrange(i as int, p as int);
            let after = a.subrange(i as int, p + 1);
            assert(after =~= before.push(city));
            assert forall|k: int| 0 <= k < n implies (#[trigger] used@[k] <==> after.contains(
                k as usize,
            )) by {
                if k == city {
                    assert(after[p - i] == city);
                } else if marks[k] {
                    let m = choose|m: int| 0 <= m < before.len() && before[m] == k as usize;
                    assert(after[m] == k as usize);
                } else if after.contains(k as usize) {
                    let m = choose|m: int| 0 <= m < after.len() && after[m] == k as usize;
                    assert(before[m] == k as usize);
                }
            }
        }
        p += 1;
    }
    let mut rest: Vec<usize> = Vec::new();
    let mut t: usize = 0;
    proof {
        reveal(Seq::filter);
        assert(rot.take(0) =~= Seq::<usize>::empty());
    }
    while t < n
        invariant
            t <= n,
            j <= n,
            n == a.len(),
            n == b.len(),
            b == parent_b@,
            rot == rotation(b, j as int),
            pred == outside(kept),
            used@.len() == n,
            is_permutation(b, n as nat),
            forall|k: int| 0 <= k < n ==> (used@[k] <==> kept.contains(k as usize)),
            rest@ == rot.take(t as int).filter(pred),
        decreases n - t,
    {
        let src = if t < n - j {
            j + t
        } else {
            t - (n - j)
        };
        let city = parent_b[src];
        proof {
            assert(rot[t as int] == city);
            assert(rot.take(t + 1) =~= rot.take(t as int).push(city));
            rot.take(t as int).lemma_filter_push(city, pred);
            assert(pred(city) == !kept.contains(city));
        }
        if !used[city] {
            rest.push(city);
        }
        t += 1;
    }
    proof {
        assert(rot.take(n as int) =~= rot);
        lemma_crossover_child_is_permutation(a, b, i as int, j as int);
    }
    let mut child: Vec<usize> = Vec::new();
    let mut q: usize = 0;
    while q < n
        invariant
            q <= n,
            i <= j <= n,
            n == a.len(),
            a == parent_a@,
            rest@ == remaining(a, b, i as int, j as int),
            rest@.len() == n - (j - i),
            child@.len() == q,
            forall|k: int|
                0 <= k < q ==> child@[k] == crossover_child(a, b, i as int, j as int)[k],
        decreases n - q,
    {
        let city = if q < i {
            rest[q + (n - j)]
        } else if q < j {
            parent_a[q]
        } else {
            rest[q - j]
        };
        child.push(city);
        q += 1;
    }
    assert(child@ =~= crossover_child(a, b, i as int, j as int));
    child
}

/// Two random cut points `i <= j <= n` for a tour of `n` cities. For two or
/// more cities they are distinct and below `n`.
pub fn choose_cut_points(n: usize) -> (cut: (usize, usize))
    ensures
        cut.0 <= cut.1 <= n,
        n >= 2 ==> cut.0 < cut.1 < n,
{
    if n >= 4 {
        random_cut_points(n)
    } else if n >= 2 {
        let i = random_below((n - 1) as u128) as usize;
        let j = i + 1 + random_below((n - 1 - i) as u128) as usize;
        (i, j)
    } else {
        (0, n)
    }
}

/// The order-one crossover of two tours for random cut points `i <= j`,
/// which are distinct and below the number of cities where there are two
/// cities or more.
pub fn crossover(parent_a: &Vec<usize>, parent_b: &Vec<usize>) -> (child: Vec<usize>)
    requires
        is_permutation(parent_a@, parent_a@.len()),
        is_permutation(parent_b@, parent_a@.len()),
    ensures
        is_permutation(child@, parent_a@.len()),
        exists|i: int, j: int|
            0 <= i <= j <= parent_a@.len() && (parent_a@.len() >= 2 ==> i < j < parent_a@.len())
                && child@ == crossover_child(parent_a@, parent_b@, i, j),
{
    let cut = choose_cut_points(parent_a.len());
    crossover_at(parent_a, parent_b, cut.0, cut.1)
}

} // verus!
