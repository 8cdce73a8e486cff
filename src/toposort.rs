//! Ordering of nodes that depend on one another: a node is emitted only
//! after every node it depends on.
use vstd::prelude::*;
use vstd::set_lib::{lemma_int_range, lemma_len_subset, set_int_range};

verus! {

/// Node `j` is ready after the nodes of `done`: not among them, and all its
/// predecessors are.
pub open spec fn ready(preds: Seq<Vec<usize>>, done: Seq<usize>, j: int) -> bool {
    &&& 0 <= j < preds.len()
    &&& !done.contains(j as usize)
    &&& forall|k: int| 0 <= k < preds[j]@.len() ==> done.contains(#[trigger] preds[j]@[k])
}

/// Each node of `order` is, among the nodes ready after those before it,
/// the one of lowest index.
pub open spec fn lowest_ready_first(order: Seq<usize>, preds: Seq<Vec<usize>>) -> bool {
    forall|a: int|
        #![trigger order[a]]
        0 <= a < order.len() ==> ready(preds, order.take(a), order[a] as int) && forall|j: int|
            0 <= j < order[a] ==> !#[trigger] ready(preds, order.take(a), j)
}

/// Every predecessor index names a node.
pub open spec fn preds_in_range(preds: Seq<Vec<usize>>) -> bool {
    forall|i: int, k: int|
        0 <= i < preds.len() && 0 <= k < preds[i]@.len() ==> (#[trigger] preds[i]@[k]) < preds.len()
}

/// `order` lists nodes of `0..n`, none twice.
pub open spec fn distinct_nodes(order: Seq<usize>, n: nat) -> bool {
    &&& forall|a: int| 0 <= a < order.len() ==> (#[trigger] order[a]) < n
    &&& forall|a: int, b: int| 0 <= a < b < order.len() ==> order[a] != order[b]
}

/// Every node of `order` comes after all of its predecessors.
pub open spec fn respects_preds(order: Seq<usize>, preds: Seq<Vec<usize>>) -> bool {
    forall|a: int, k: int|
        0 <= a < order.len() && 0 <= k < preds[order[a] as int]@.len() ==> order.take(a).contains(
            #[trigger] preds[order[a] as int]@[k],
        )
}

/// Node `j` has a predecessor that `order` does not hold.
pub open spec fn blocked(order: Seq<usize>, preds: Seq<Vec<usize>>, j: int) -> bool {
    exists|k: int| 0 <= k < preds[j]@.len() && !order.contains(#[trigger] preds[j]@[k])
}

/// What a dependency ordering of `preds` returns: distinct nodes, each
/// after its predecessors, and every node left out has a predecessor that
/// was left out too (so the nodes left out, if any, lie on or behind a
/// cycle).
pub open spec fn is_dependency_order(order: Seq<usize>, preds: Seq<Vec<usize>>) -> bool {
    &&& distinct_nodes(order, preds.len())
    &&& respects_preds(order, preds)
    &&& forall|j: int| 0 <= j < preds.len() ==> order.contains(j as usize) || blocked(order, preds, j)
}

/// Every node appears in `order`.
pub open spec fn covers_all(order: Seq<usize>, n: nat) -> bool {
    forall|j: usize| j < n ==> #[trigger] order.contains(j)
}

/// Whether every predecessor in `ps` is marked done.
fn all_done(ps: &Vec<usize>, done: &Vec<bool>) -> (r: bool)
    requires
        forall|k: int| 0 <= k < ps@.len() ==> ps@[k] < done@.len(),
    ensures
        r == forall|k: int| 0 <= k < ps@.len() ==> done@[#[trigger] ps@[k] as int],
{
    let mut k: usize = 0;
    while k < ps.len()
        invariant
            k <= ps@.len(),
            forall|k: int| 0 <= k < ps@.len() ==> ps@[k] < done@.len(),
            forall|m: int| 0 <= m < k ==> done@[#[trigger] ps@[m] as int],
        decreases ps@.len() - k,
    {
        if !done[ps[k]] {
            return false;
        }
        k = k + 1;
    }
    true
}

/// Orders the nodes `0..preds.len()` so that each comes after its
/// predecessors (Kahn's algorithm). Among the nodes that are ready at a
/// step, the lowest index goes first, so the result depends on the input
/// alone. Nodes that can never become ready are left out.
pub fn dependency_order(preds: &Vec<Vec<usize>>) -> (order: Vec<usize>)
    requires
        preds_in_range(preds@),
    ensures
        is_dependency_order(order@, preds@),
        lowest_ready_first(order@, preds@),
{
    let n = preds.len();
    let mut done: Vec<bool> = Vec::new();
    let mut i: usize = 0;
    while i < n
        invariant
            i <= n,
            done@.len() == i,
            forall|j: int| 0 <= j < i ==> !done@[j],
        decreases n - i,
    {
        done.push(false);
        i = i + 1;
    }
    let mut order: Vec<usize> = Vec::new();
    let ghost mut seen: Set<int> = Set::empty();
    proof {
        lemma_int_range(0, n as int);
    }
    loop
        invariant
            n == preds@.len(),
            preds_in_range(preds@),
            done@.len() == n,
            distinct_nodes(order@, n as nat),
            respects_preds(order@, preds@),
            lowest_ready_first(order@, preds@),
            forall|j: int| 0 <= j < n ==> (done@[j] <==> order@.contains(j as usize)),
            seen == Set::new(|j: int| 0 <= j < n && done@[j]),
            seen.finite(),
            seen.len() == order@.len(),
            set_int_range(0, n as int).finite(),
            set_int_range(0, n as int).len() == n,
        decreases n - order@.len(),
    {
        let mut found: Option<usize> = None;
        let mut j: usize = 0;
        while j < n && found.is_none()
            invariant
                n == preds@.len(),
                preds_in_range(preds@),
                done@.len() == n,
                j <= n,
                found matches Some(f) ==> f < n && !done@[f as int] && forall|k: int|
                    0 <= k < preds@[f as int]@.len() ==> done@[#[trigger] preds@[f as int]@[k] as int],
                found matches Some(f) ==> forall|m: int|
                    0 <= m < f ==> done@[m] || exists|k: int|
                        0 <= k < preds@[m]@.len() && !done@[#[trigger] preds@[m]@[k] as int],
                found.is_none() ==> forall|m: int|
                    0 <= m < j ==> done@[m] || exists|k: int|
                        0 <= k < preds@[m]@.len() && !done@[#[trigger] preds@[m]@[k] as int],
            decreases n - j,
        {
            if !done[j] && all_done(&preds[j], &done) {
                found = Some(j);
                j = j + 1;
            } else {
                j = j + 1;
            }
        }
        match found {
            None => {
                assert forall|j: int| 0 <= j < n implies order@.contains(j as usize) || blocked(
                    order@,
                    preds@,
                    j,
                ) by {
                    if !done@[j] {
                        let k = choose|k: int|
                            0 <= k < preds@[j]@.len() && !done@[#[trigger] preds@[j]@[k] as int];
                        assert(!order@.contains(preds@[j]@[k]));
                    }
                };
                return order;
            },
            Some(j) => {
                proof {
                    assert(seen.subset_of(set_int_range(0, n as int).remove(j as int)));
                    lemma_len_subset(seen, set_int_range(0, n as int).remove(j as int));
                    assert(!order@.contains(j));
                }
                let ghost old_order = order@;
                let ghost old_done = done@;
                done.set(j, true);
                order.push(j);
                proof {
                    seen = seen.insert(j as int);
                    assert(seen == Set::new(|m: int| 0 <= m < n && done@[m]));
                    assert forall|a: int, k: int|
                        0 <= a < order@.len() && 0 <= k < preds@[order@[a] as int]@.len() implies order@.take(a).contains(
                        #[trigger] preds@[order@[a] as int]@[k],
                    ) by {
                        if a < old_order.len() {
                            assert(order@.take(a) =~= old_order.take(a));
                            assert(order@[a] == old_order[a]);
                        } else {
                            assert(order@.take(a) =~= old_order);
                            let p = preds@[j as int]@[k];
                            assert(old_done[p as int]);
                        }
                    };
                    assert(respects_preds(order@, preds@));
                    assert forall|m: int| 0 <= m < n implies (done@[m] <==> order@.contains(m as usize)) by {
                        if done@[m] && m != j {
                            assert(old_order.contains(m as usize));
                            let b = choose|b: int| 0 <= b < old_order.len() && old_order[b] == m as usize;
                            assert(order@[b] == m as usize);
                        }
                        if m == j {
                            assert(order@[order@.len() - 1] == j);
                        }
                        if order@.contains(m as usize) && m != j {
                            let b = choose|b: int| 0 <= b < order@.len() && order@[b] == m as usize;
                            assert(b < old_order.len());
                            assert(old_order[b] == m as usize);
                        }
                    };
                    assert forall|a: int|
                        #![trigger order@[a]]
                        0 <= a < order@.len() implies ready(preds@, order@.take(a), order@[a] as int) && forall|m: int|
                            0 <= m < order@[a] ==> !#[trigger] ready(preds@, order@.take(a), m) by {
                        if a < old_order.len() {
                            assert(order@.take(a) =~= old_order.take(a));
                            assert(order@[a] == old_order[a]);
                        } else {
                            assert(order@.take(a) =~= old_order);
                            lemma_ready_by_marks(preds@, old_done, old_order, j as int);
                            assert forall|m: int| 0 <= m < order@[a] implies !#[trigger] ready(preds@, order@.take(a), m) by {
                                lemma_ready_by_marks(preds@, old_done, old_order, m);
                            }
                        }
                    };
                }
            },
        }
    }
}

/// With `done` marking exactly the nodes of `order`, readiness after
/// `order` is: unmarked, with every predecessor marked.
proof fn lemma_ready_by_marks(preds: Seq<Vec<usize>>, done: Seq<bool>, order: Seq<usize>, j: int)
    requires
        preds_in_range(preds),
        done.len() == preds.len(),
        forall|m: int| 0 <= m < preds.len() ==> (done[m] <==> order.contains(m as usize)),
        0 <= j < preds.len(),
    ensures
        ready(preds, order, j) <==> (!done[j] && forall|k: int|
            0 <= k < preds[j]@.len() ==> done[#[trigger] preds[j]@[k] as int]),
{
    if !done[j] && forall|k: int| 0 <= k < preds[j]@.len() ==> done[#[trigger] preds[j]@[k] as int] {
        assert forall|k: int| 0 <= k < preds[j]@.len() implies order.contains(#[trigger] preds[j]@[k]) by {
            assert(done[preds[j]@[k] as int]);
        }
    }
    if ready(preds, order, j) {
        assert forall|k: int| 0 <= k < preds[j]@.len() implies done[#[trigger] preds[j]@[k] as int] by {
            assert(order.contains(preds[j]@[k]));
        }
    }
}

/// The nodes of `s` (a non-empty set) each have a predecessor in `s`:
/// following predecessors never leaves `s`, so the nodes have a cycle.
pub open spec fn pred_cycle(preds: Seq<Vec<usize>>, s: Set<int>) -> bool {
    &&& exists|j: int| s.contains(j)
    &&& forall|j: int| #[trigger] s.contains(j) ==> 0 <= j < preds.len()
    &&& forall|j: int| s.contains(j) ==> #[trigger] pred_within(preds, s, j)
}

/// Node `j` has a predecessor in `s`.
pub open spec fn pred_within(preds: Seq<Vec<usize>>, s: Set<int>, j: int) -> bool {
    exists|k: int| s.contains(k) && #[trigger] preds[j]@.contains(k as usize)
}

/// A node that a dependency order leaves out lies on or behind a cycle.
pub proof fn lemma_left_out_means_cycle(preds: Seq<Vec<usize>>, order: Seq<usize>, m: int)
    requires
        preds_in_range(preds),
        is_dependency_order(order, preds),
        0 <= m < preds.len(),
        !order.contains(m as usize),
    ensures
        exists|s: Set<int>| pred_cycle(preds, s),
{
    let n = preds.len();
    let s = Set::new(|j: int| 0 <= j < n && !order.contains(j as usize));
    assert(s.contains(m));
    assert forall|j: int| s.contains(j) implies #[trigger] pred_within(preds, s, j) by {
        assert(order.contains(j as usize) || blocked(order, preds, j));
        let y = choose|y: int| 0 <= y < preds[j]@.len() && !order.contains(#[trigger] preds[j]@[y]);
        let k = preds[j]@[y] as int;
        assert(preds[j]@.contains(k as usize));
        assert(s.contains(k));
    }
    assert(pred_cycle(preds, s));
}

/// Nodes with a cycle have no complete dependency order.
pub proof fn lemma_cycle_blocks_order(preds: Seq<Vec<usize>>, order: Seq<usize>, s: Set<int>)
    requires
        preds.len() <= usize::MAX,
        pred_cycle(preds, s),
        respects_preds(order, preds),
    ensures
        !covers_all(order, preds.len()),
{
    if covers_all(order, preds.len()) {
        let j0 = choose|j: int| s.contains(j);
        assert(order.contains(j0 as usize));
        let a0 = choose|a: int| 0 <= a < order.len() && order[a] == j0 as usize;
        let pos = |p: int| 0 <= p < order.len() && s.contains(order[p] as int);
        assert(order[a0] as int == j0);
        assert(pos(a0));
        let a = least_with(pos, a0);
        let j = order[a] as int;
        assert(s.contains(j));
        assert(pred_within(preds, s, j));
        let k = choose|k: int| s.contains(k) && #[trigger] preds[j]@.contains(k as usize);
        let y = choose|y: int| 0 <= y < preds[j]@.len() && preds[j]@[y] == k as usize;
        assert(order.take(a).contains(#[trigger] preds[order[a] as int]@[y]));
        let b = choose|b: int| 0 <= b < a && #[trigger] order.take(a)[b] == k as usize;
        assert(order[b] == k as usize);
        assert(pos(b));
    }
}

/// The least natural number with property `p`, given one that has it.
pub proof fn least_with(p: spec_fn(int) -> bool, a: int) -> (m: int)
    requires
        0 <= a,
        p(a),
    ensures
        0 <= m <= a,
        p(m),
        forall|b: int| 0 <= b < m ==> !#[trigger] p(b),
    decreases a,
{
    if exists|b: int| 0 <= b < a && #[trigger] p(b) {
        let b = choose|b: int| 0 <= b < a && #[trigger] p(b);
        least_with(p, b)
    } else {
        a
    }
}

/// Node `i` is ready after the nodes of `done` under the relation `waits`
/// (`waits(i, j)`: node `i` waits for node `j`).
pub open spec fn ready_by(waits: spec_fn(int, int) -> bool, n: int, done: Seq<usize>, i: int) -> bool {
    &&& 0 <= i < n
    &&& !done.contains(i as usize)
    &&& forall|j: int| 0 <= j < n && #[trigger] waits(i, j) ==> done.contains(j as usize)
}

/// Each node of `order` is, among the nodes ready after those before it
/// under `waits`, the one of lowest index.
pub open spec fn lowest_ready_first_by(waits: spec_fn(int, int) -> bool, n: int, order: Seq<usize>) -> bool {
    forall|a: int|
        #![trigger order[a]]
        0 <= a < order.len() ==> ready_by(waits, n, order.take(a), order[a] as int) && forall|j: int|
            0 <= j < order[a] ==> !#[trigger] ready_by(waits, n, order.take(a), j)
}

proof fn lemma_ready_iff(preds: Seq<Vec<usize>>, waits: spec_fn(int, int) -> bool, done: Seq<usize>, i: int)
    requires
        preds_in_range(preds),
        forall|x: int, y: int|
            0 <= x < preds.len() && 0 <= y < preds.len() ==> (preds[x]@.contains(y as usize) <==> #[trigger] waits(x, y)),
        0 <= i < preds.len(),
    ensures
        ready(preds, done, i) <==> ready_by(waits, preds.len() as int, done, i),
{
    let n = preds.len() as int;
    if ready(preds, done, i) {
        assert forall|j: int| 0 <= j < n && #[trigger] waits(i, j) implies done.contains(j as usize) by {
            assert(preds[i]@.contains(j as usize));
            let k = choose|k: int| 0 <= k < preds[i]@.len() && preds[i]@[k] == j as usize;
            assert(done.contains(preds[i]@[k]));
        }
    }
    if ready_by(waits, n, done, i) {
        assert forall|k: int| 0 <= k < preds[i]@.len() implies done.contains(#[trigger] preds[i]@[k]) by {
            let j = preds[i]@[k] as int;
            assert(preds[i]@.contains(j as usize));
            assert(waits(i, j));
        }
    }
}

/// The lowest-index-first rule carries over from the predecessor lists to
/// the relation they list.
pub proof fn lemma_lowest_first_by(preds: Seq<Vec<usize>>, waits: spec_fn(int, int) -> bool, order: Seq<usize>)
    requires
        preds_in_range(preds),
        distinct_nodes(order, preds.len()),
        forall|x: int, y: int|
            0 <= x < preds.len() && 0 <= y < preds.len() ==> (preds[x]@.contains(y as usize) <==> #[trigger] waits(x, y)),
        lowest_ready_first(order, preds),
    ensures
        lowest_ready_first_by(waits, preds.len() as int, order),
{
    let n = preds.len() as int;
    assert forall|a: int|
        #![trigger order[a]]
        0 <= a < order.len() implies ready_by(waits, n, order.take(a), order[a] as int) && forall|j: int|
            0 <= j < order[a] ==> !#[trigger] ready_by(waits, n, order.take(a), j) by {
        lemma_ready_iff(preds, waits, order.take(a), order[a] as int);
        assert forall|j: int| 0 <= j < order[a] implies !#[trigger] ready_by(waits, n, order.take(a), j) by {
            lemma_ready_iff(preds, waits, order.take(a), j);
        }
    }
}

/// No node is ready after the whole of `order`.
pub open spec fn exhausted_by(waits: spec_fn(int, int) -> bool, n: int, order: Seq<usize>) -> bool {
    forall|j: int| !#[trigger] ready_by(waits, n, order, j)
}

/// Two orders that both take the lowest ready node at each step, and both
/// run until no node is ready, are the same order.
pub proof fn lemma_lowest_first_unique(waits: spec_fn(int, int) -> bool, n: int, o1: Seq<usize>, o2: Seq<usize>)
    requires
        lowest_ready_first_by(waits, n, o1),
        lowest_ready_first_by(waits, n, o2),
        exhausted_by(waits, n, o1),
        exhausted_by(waits, n, o2),
    ensures
        o1 == o2,
{
    let m = if o1.len() < o2.len() { o1.len() } else { o2.len() };
    assert forall|a: int| 0 <= a <= m implies #[trigger] o1.take(a) == o2.take(a) by {
        lemma_common_prefix(waits, n, o1, o2, a);
    }
    assert(o1.take(m as int) == o2.take(m as int));
    if o1.len() < o2.len() {
        assert(o1.take(m as int) =~= o1);
        assert(ready_by(waits, n, o2.take(m as int), o2[m as int] as int));
        assert(!ready_by(waits, n, o1, o2[m as int] as int));
    } else if o2.len() < o1.len() {
        assert(o2.take(m as int) =~= o2);
        assert(ready_by(waits, n, o1.take(m as int), o1[m as int] as int));
        assert(!ready_by(waits, n, o2, o1[m as int] as int));
    } else {
        assert(o1.take(m as int) =~= o1);
        assert(o2.take(m as int) =~= o2);
    }
}

proof fn lemma_common_prefix(waits: spec_fn(int, int) -> bool, n: int, o1: Seq<usize>, o2: Seq<usize>, a: int)
    requires
        lowest_ready_first_by(waits, n, o1),
        lowest_ready_first_by(waits, n, o2),
        0 <= a <= o1.len(),
        a <= o2.len(),
    ensures
        o1.take(a) == o2.take(a),
    decreases a,
{
    if a > 0 {
        lemma_common_prefix(waits, n, o1, o2, a - 1);
        let b = a - 1;
        let x = o1[b] as int;
        let y = o2[b] as int;
        assert(ready_by(waits, n, o1.take(b), x));
        assert(ready_by(waits, n, o2.take(b), y));
        if x < y {
            assert(!ready_by(waits, n, o2.take(b), x));
        }
        if y < x {
            assert(!ready_by(waits, n, o1.take(b), y));
        }
        assert(o1.take(a) =~= o1.take(b).push(o1[b]));
        assert(o2.take(a) =~= o2.take(b).push(o2[b]));
    }
}

/// A list that holds every node leaves no node ready.
pub proof fn lemma_covering_is_exhausted(waits: spec_fn(int, int) -> bool, n: int, order: Seq<usize>)
    requires
        0 <= n <= usize::MAX,
        covers_all(order, n as nat),
    ensures
        exhausted_by(waits, n, order),
{
    assert forall|j: int| !#[trigger] ready_by(waits, n, order, j) by {
        if 0 <= j < n {
            assert(order.contains(j as usize));
        }
    }
}

} // verus!
