//! Topological ordering of dependency graphs by Kahn's algorithm.
//!
//! A graph is given as one predecessor list per node: `deps[i]` holds the
//! indices of the nodes that must come before node `i`.  The sorter seeds a
//! FIFO queue with every node whose predecessor count is zero (in ascending
//! index order) and repeatedly dequeues a node, appends it to the order, and
//! decrements the count of every node whose predecessor list mentions it.
//! Nodes caught in a cycle never reach count zero and are simply absent from
//! the order, so the order is exactly the sortable prefix of the graph.

use vstd::prelude::*;
use vstd::seq_lib::*;
use vstd::set_lib::lemma_len_subset;

verus! {

broadcast use
    vstd::seq_lib::group_seq_properties,
    vstd::set::group_set_axioms,
    vstd::seq_lib::seq_to_set_is_finite;

/// The predecessor lists of a graph, as mathematical sequences.
pub open spec fn views_of(deps: Seq<Vec<usize>>) -> Seq<Seq<usize>> {
    deps.map_values(|d: Vec<usize>| d@)
}

/// Total of all pending predecessor counts; the termination measure of the run.
pub open spec fn sum_counts(s: Seq<usize>) -> int
    decreases s.len(),
{
    if s.len() == 0 {
        0
    } else {
        sum_counts(s.drop_last()) + s.last()
    }
}

/// How many distinct entries of `s` occur in `r`.
pub open spec fn inter_card(s: Seq<usize>, r: Seq<usize>) -> int {
    s.to_set().intersect(r.to_set()).len() as int
}

/// One sweep over all nodes after node `v` was dequeued, starting at node `i`:
/// every not-yet-ordered node whose predecessor list mentions `v` has its
/// count lowered, and is enqueued when the count reaches zero.
pub open spec fn scan_step(
    deps: Seq<Seq<usize>>,
    v: usize,
    counts: Seq<usize>,
    processed: Seq<bool>,
    queue: Seq<usize>,
    i: int,
) -> (Seq<usize>, Seq<usize>)
    decreases deps.len() - i,
{
    if i < 0 || i >= deps.len() {
        (counts, queue)
    } else if i < counts.len() && i < processed.len() && !processed[i] && deps[i].contains(v)
        && counts[i] > 0 {
        let c = (counts[i] - 1) as usize;
        let counts2 = counts.update(i, c);
        let queue2 = if c == 0 {
            queue.push(i as usize)
        } else {
            queue
        };
        scan_step(deps, v, counts2, processed, queue2, i + 1)
    } else {
        scan_step(deps, v, counts, processed, queue, i + 1)
    }
}

/// The whole run of Kahn's algorithm from a given state: dequeue the head of
/// the FIFO queue, append it to the order, sweep, and repeat until the queue
/// is empty.
pub open spec fn kahn_run(
    deps: Seq<Seq<usize>>,
    counts: Seq<usize>,
    processed: Seq<bool>,
    queue: Seq<usize>,
    result: Seq<usize>,
) -> Seq<usize>
    decreases sum_counts(counts) + queue.len()
        via kahn_run_decreases
{
    if queue.len() == 0 {
        result
    } else {
        let v = queue[0];
        let processed2 = processed.update(v as int, true);
        let sq = scan_step(deps, v, counts, processed2, queue.drop_first(), 0);
        kahn_run(deps, sq.0, processed2, sq.1, result.push(v))
    }
}

/// Initial predecessor counts of the first `i` nodes.
pub open spec fn seed_counts(deps: Seq<Seq<usize>>, i: int) -> Seq<usize>
    decreases i,
{
    if i <= 0 {
        Seq::empty()
    } else {
        seed_counts(deps, i - 1).push(deps[i - 1].len() as usize)
    }
}

/// Initial queue: the nodes among the first `i` with no predecessors, ascending.
pub open spec fn seed_queue(deps: Seq<Seq<usize>>, i: int) -> Seq<usize>
    decreases i,
{
    if i <= 0 {
        Seq::empty()
    } else {
        let q = seed_queue(deps, i - 1);
        if deps[i - 1].len() == 0 {
            q.push((i - 1) as usize)
        } else {
            q
        }
    }
}

pub open spec fn all_unprocessed(n: int) -> Seq<bool> {
    Seq::new(n as nat, |k: int| false)
}

/// The order Kahn's algorithm produces for a graph: the meaning of
/// `topological_order`, and the order every caller's contract is pinned to.
pub open spec fn topo_order_spec(deps: Seq<Seq<usize>>) -> Seq<usize> {
    kahn_run(
        deps,
        seed_counts(deps, deps.len() as int),
        all_unprocessed(deps.len() as int),
        seed_queue(deps, deps.len() as int),
        Seq::empty(),
    )
}

proof fn lemma_sum_nonneg(s: Seq<usize>)
    ensures
        sum_counts(s) >= 0,
    decreases s.len(),
{
    if s.len() > 0 {
        lemma_sum_nonneg(s.drop_last());
    }
}

proof fn lemma_sum_update(s: Seq<usize>, i: int, v: usize)
    requires
        0 <= i < s.len(),
    ensures
        sum_counts(s.update(i, v)) == sum_counts(s) - s[i] + v,
    decreases s.len(),
{
    let t = s.update(i, v);
    if i == s.len() - 1 {
        assert(t.drop_last() =~= s.drop_last());
        assert(t.last() == v);
    } else {
        assert(t.drop_last() =~= s.drop_last().update(i, v));
        assert(t.last() == s.last());
        lemma_sum_update(s.drop_last(), i, v);
    }
}

proof fn lemma_scan_measure(
    deps: Seq<Seq<usize>>,
    v: usize,
    counts: Seq<usize>,
    processed: Seq<bool>,
    queue: Seq<usize>,
    i: int,
)
    ensures
        sum_counts(scan_step(deps, v, counts, processed, queue, i).0) + scan_step(
            deps,
            v,
            counts,
            processed,
            queue,
            i,
        ).1.len() <= sum_counts(counts) + queue.len(),
    decreases deps.len() - i,
{
    if i < 0 || i >= deps.len() {
    } else if i < counts.len() && i < processed.len() && !processed[i] && deps[i].contains(v)
        && counts[i] > 0 {
        let c = (counts[i] - 1) as usize;
        let counts2 = counts.update(i, c);
        let queue2 = if c == 0 {
            queue.push(i as usize)
        } else {
            queue
        };
        lemma_sum_update(counts, i, c);
        lemma_scan_measure(deps, v, counts2, processed, queue2, i + 1);
    } else {
        lemma_scan_measure(deps, v, counts, processed, queue, i + 1);
    }
}

#[via_fn]
proof fn kahn_run_decreases(
    deps: Seq<Seq<usize>>,
    counts: Seq<usize>,
    processed: Seq<bool>,
    queue: Seq<usize>,
    result: Seq<usize>,
)
{
    lemma_sum_nonneg(counts);
    if queue.len() > 0 {
        let v = queue[0];
        let processed2 = processed.update(v as int, true);
        let sq = scan_step(deps, v, counts, processed2, queue.drop_first(), 0);
        lemma_scan_measure(deps, v, counts, processed2, queue.drop_first(), 0);
        lemma_sum_nonneg(sq.0);
    }
}

/// Adding one ordered node to `r` raises the met-predecessor count of a list
/// by one exactly when the list mentions that node and it was not ordered yet.
proof fn lemma_inter_push(s: Seq<usize>, r: Seq<usize>, v: usize)
    ensures
        inter_card(s, r.push(v)) == inter_card(s, r) + if s.contains(v) && !r.contains(v) {
            1int
        } else {
            0int
        },
{
    let a = s.to_set();
    let b = r.to_set();
    assert(r.push(v).to_set() =~= b.insert(v));
    if s.contains(v) && !r.contains(v) {
        assert(a.intersect(b.insert(v)) =~= a.intersect(b).insert(v));
        assert(!a.intersect(b).contains(v));
    } else {
        assert(a.intersect(b.insert(v)) =~= a.intersect(b));
    }
}

/// A list that mentions a node not yet in `r` has an unmet entry.
proof fn lemma_inter_lt(s: Seq<usize>, r: Seq<usize>, v: usize)
    requires
        s.contains(v),
        !r.contains(v),
    ensures
        inter_card(s, r) < s.len(),
{
    let a = s.to_set();
    let b = r.to_set();
    s.lemma_cardinality_of_set();
    assert(a.intersect(b).subset_of(a.remove(v)));
    assert(a.remove(v).len() == a.len() - 1);
    lemma_len_subset(a.intersect(b), a.remove(v));
}

/// When every entry of `s` is counted as met in `r`, every entry is in `r`.
proof fn lemma_all_deps_in(s: Seq<usize>, r: Seq<usize>)
    requires
        inter_card(s, r) >= s.len(),
    ensures
        forall|x: usize| s.contains(x) ==> r.contains(x),
{
    let a = s.to_set();
    let b = r.to_set();
    let ab = a.intersect(b);
    s.lemma_cardinality_of_set();
    vstd::set_lib::lemma_len_intersect(a, b);
    assert(ab.len() == a.len());
    assert forall|x: usize| s.contains(x) implies r.contains(x) by {
        if !b.contains(x) {
            assert(ab.subset_of(a.remove(x)));
            assert(a.remove(x).len() == a.len() - 1);
            lemma_len_subset(ab, a.remove(x));
        }
    }
}

proof fn lemma_push_keeps_no_dup(s: Seq<usize>, x: usize)
    requires
        s.no_duplicates(),
        !s.contains(x),
    ensures
        s.push(x).no_duplicates(),
{
    let t = s.push(x);
    assert forall|i: int, j: int| 0 <= i < t.len() && 0 <= j < t.len() && i != j implies t[i]
        != t[j] by {
        if i < s.len() && j < s.len() {
            assert(s[i] == t[i] && s[j] == t[j]);
        } else if i < s.len() {
            assert(t[j] == x && t[i] == s[i]);
        } else if j < s.len() {
            assert(t[i] == x && t[j] == s[j]);
        }
    }
}

/// A duplicate-free sequence over `{0, .., n-1}` has at most `n` entries.
proof fn lemma_no_dup_len_le(r: Seq<usize>, n: usize)
    requires
        r.no_duplicates(),
        forall|k: int| 0 <= k < r.len() ==> (r[k] as int) < n,
    ensures
        r.len() <= n,
{
    let univ = Seq::new(n as nat, |k: int| k as usize);
    r.unique_seq_to_set();
    univ.unique_seq_to_set();
    assert forall|x: usize| r.to_set().contains(x) implies univ.to_set().contains(x) by {
        let k = choose|k: int| 0 <= k < r.len() && r[k] == x;
        assert(univ[x as int] == x);
        assert(univ.contains(x));
    };
    assert(r.to_set().subset_of(univ.to_set()));
    lemma_len_subset(r.to_set(), univ.to_set());
}

/// A duplicate-free sequence of `n` entries over `{0, .., n-1}` holds them all.
proof fn lemma_complete_contains_all(r: Seq<usize>, n: usize)
    requires
        r.no_duplicates(),
        forall|k: int| 0 <= k < r.len() ==> (r[k] as int) < n,
        r.len() == n,
    ensures
        forall|j: int| 0 <= j < n ==> r.contains(#[trigger] (j as usize)),
{
    let univ = Seq::new(n as nat, |k: int| k as usize);
    r.unique_seq_to_set();
    univ.unique_seq_to_set();
    assert forall|x: usize| r.to_set().contains(x) implies univ.to_set().contains(x) by {
        let k = choose|k: int| 0 <= k < r.len() && r[k] == x;
        assert(univ[x as int] == x);
        assert(univ.contains(x));
    };
    assert(r.to_set().subset_of(univ.to_set()));
    assert forall|j: int| 0 <= j < n implies r.contains(#[trigger] (j as usize)) by {
        let x = j as usize;
        assert(univ[j] == x);
        assert(univ.to_set().contains(x));
        if !r.to_set().contains(x) {
            assert(r.to_set().subset_of(univ.to_set().remove(x)));
            assert(univ.to_set().remove(x).len() == univ.to_set().len() - 1);
            lemma_len_subset(r.to_set(), univ.to_set().remove(x));
        }
    };
}

/// Two nodes that each list the other (or one that lists itself) can never
/// both stand in an order in which every listed predecessor comes earlier,
/// so such an order stays strictly shorter than the node count.
proof fn lemma_mutual_not_complete(ds: Seq<Seq<usize>>, r: Seq<usize>, i: int, j: int)
    requires
        r.no_duplicates(),
        forall|k: int| 0 <= k < r.len() ==> (r[k] as int) < ds.len(),
        forall|k: int, x: usize|
            0 <= k < r.len() && #[trigger] ds[r[k] as int].contains(x) ==> r.take(k).contains(x),
        ds.len() <= usize::MAX,
        0 <= i < ds.len(),
        0 <= j < ds.len(),
        ds[i].contains(j as usize),
        ds[j].contains(i as usize),
    ensures
        r.len() < ds.len(),
{
    let n = ds.len() as usize;
    lemma_no_dup_len_le(r, n);
    if r.len() == ds.len() {
        lemma_complete_contains_all(r, n);
        assert(r.contains(i as usize));
        assert(r.contains(j as usize));
        let ki = choose|k: int| 0 <= k < r.len() && r[k] == i as usize;
        let kj = choose|k: int| 0 <= k < r.len() && r[k] == j as usize;
        assert(ds[r[ki] as int].contains(j as usize));
        assert(r.take(ki).contains(j as usize));
        let mj = choose|m: int| 0 <= m < ki && r.take(ki)[m] == j as usize;
        assert(r[mj] == r[kj]);
        assert(mj == kj);
        assert(ds[r[kj] as int].contains(i as usize));
        assert(r.take(kj).contains(i as usize));
        let mi = choose|m: int| 0 <= m < kj && r.take(kj)[m] == i as usize;
        assert(r[mi] == r[ki]);
        assert(mi == ki);
    }
}

/// Does the list hold this index?
pub(crate) fn contains_index(list: &Vec<usize>, x: usize) -> (b: bool)
    ensures
        b == list@.contains(x),
{
    let mut k: usize = 0;
    while k < list.len()
        invariant
            k <= list@.len(),
            !list@.take(k as int).contains(x),
        decreases list@.len() - k,
    {
        if list[k] == x {
            assert(list@[k as int] == x);
            return true;
        }
        assert(list@.take(k + 1 as int) =~= list@.take(k as int).push(list@[k as int]));
        k = k + 1;
    }
    assert(list@.take(list@.len() as int) =~= list@);
    false
}

/// Kahn's algorithm over predecessor-index lists.
///
/// Returns the execution order and the cycle flag.  The order is pinned
/// exactly to `topo_order_spec`, so equal inputs give equal orders; on top of
/// that the contract states the laws the order obeys: every listed
/// predecessor of an ordered node appears earlier in the order, the order
/// never repeats a node, and a self-referential or mutual dependency keeps
/// the order strictly shorter than the node count (the cycle flag is then
/// set).
pub fn topological_order(deps: &Vec<Vec<usize>>) -> (r: (Vec<usize>, bool))
    ensures
        r.0@ == topo_order_spec(views_of(deps@)),
        r.1 == (r.0@.len() != deps@.len()),
        r.0@.no_duplicates(),
        r.0@.len() <= deps@.len(),
        forall|k: int| 0 <= k < r.0@.len() ==> (r.0@[k] as int) < deps@.len(),
        forall|k: int, x: usize|
            0 <= k < r.0@.len() && #[trigger] views_of(deps@)[r.0@[k] as int].contains(x)
                ==> r.0@.take(k).contains(x),
        forall|i: int, j: int|
            0 <= i < deps@.len() && 0 <= j < deps@.len()
                && #[trigger] views_of(deps@)[i].contains(j as usize)
                && #[trigger] views_of(deps@)[j].contains(i as usize)
                ==> r.0@.len() < deps@.len(),
        forall|i: int|
            0 <= i < deps@.len() && #[trigger] views_of(deps@)[i].no_duplicates() && views_of(
                deps@,
            )[i].to_set().subset_of(r.0@.to_set()) ==> r.0@.contains(i as usize),
{
    let ghost d = views_of(deps@);
    let n = deps.len();
    let mut counts: Vec<usize> = Vec::new();
    let mut queue: Vec<usize> = Vec::new();
    let mut processed: Vec<bool> = Vec::new();
    let mut i: usize = 0;
    while i < n
        invariant
            i <= n,
            n == deps@.len(),
            d == views_of(deps@),
            counts@ == seed_counts(d, i as int),
            queue@ == seed_queue(d, i as int),
            processed@ == all_unprocessed(i as int),
            counts@.len() == i,
            processed@.len() == i,
            forall|x: int| 0 <= x < i ==> counts@[x] as int == d[x].len(),
            forall|k: int|
                0 <= k < queue@.len() ==> (queue@[k] as int) < i && counts@[queue@[k] as int] == 0,
            queue@.no_duplicates(),
            forall|x: int|
                0 <= x < i && d[x].len() == 0 ==> queue@.contains(#[trigger] (x as usize)),
        decreases n - i,
    {
        let ghost q_pre = queue@;
        counts.push(deps[i].len());
        if deps[i].len() == 0 {
            queue.push(i);
            proof {
                assert(!q_pre.contains(i));
                lemma_push_keeps_no_dup(q_pre, i);
                assert(queue@[q_pre.len() as int] == i);
            }
        }
        processed.push(false);
        i = i + 1;
        proof {
            assert(processed@ =~= all_unprocessed(i as int));
            assert forall|x: int| 0 <= x < i && d[x].len() == 0 implies queue@.contains(
                #[trigger] (x as usize),
            ) by {
                if x < i - 1 {
                    let idx = choose|idx: int| 0 <= idx < q_pre.len() && q_pre[idx] == x as usize;
                    assert(queue@[idx] == x as usize);
                } else {
                    assert(queue@[queue@.len() - 1] == x as usize);
                }
            };
        }
    }

    let mut result: Vec<usize> = Vec::new();
    let mut head: usize = 0;
    proof {
        assert(queue@.subrange(0, queue@.len() as int) =~= queue@);
        assert forall|x: int| 0 <= x < n implies inter_card(d[x], Seq::<usize>::empty()) == 0 by {
            assert(Seq::<usize>::empty().to_set() =~= Set::<usize>::empty());
            assert(d[x].to_set().intersect(Set::<usize>::empty()) =~= Set::<usize>::empty());
        };
    }
    while head < queue.len()
        invariant
            n == deps@.len(),
            d == views_of(deps@),
            counts@.len() == n,
            processed@.len() == n,
            head <= queue@.len(),
            kahn_run(
                d,
                counts@,
                processed@,
                queue@.subrange(head as int, queue@.len() as int),
                result@,
            ) == topo_order_spec(d),
            forall|k: int|
                head <= k < queue@.len() ==> (queue@[k] as int) < n && counts@[queue@[k] as int]
                    == 0 && !processed@[queue@[k] as int],
            queue@.subrange(head as int, queue@.len() as int).no_duplicates(),
            result@.no_duplicates(),
            forall|k: int| 0 <= k < result@.len() ==> (result@[k] as int) < n,
            forall|x: int| 0 <= x < n ==> (processed@[x] <==> result@.contains(x as usize)),
            forall|x: int|
                0 <= x < n && !processed@[x] ==> counts@[x] as int == d[x].len() - inter_card(
                    d[x],
                    result@,
                ),
            forall|x: int|
                0 <= x < n && !processed@[x] && counts@[x] == 0 ==> queue@.subrange(
                    head as int,
                    queue@.len() as int,
                ).contains(#[trigger] (x as usize)),
            forall|k: int, x: usize|
                0 <= k < result@.len() && #[trigger] d[result@[k] as int].contains(x)
                    ==> result@.take(k).contains(x),
        decreases sum_counts(counts@) + queue@.len() - head,
    {
        proof {
            lemma_sum_nonneg(counts@);
        }
        let ghost qview0 = queue@.subrange(head as int, queue@.len() as int);
        let ghost counts0 = counts@;
        let ghost result0 = result@;
        let ghost processed1 = processed@;
        let v = queue[head];
        assert(v == qview0[0]);
        assert((v as int) < n && counts@[v as int] == 0 && !processed@[v as int]);
        head = head + 1;
        result.push(v);
        processed.set(v, true);
        let ghost processed2 = processed@;
        proof {
            assert(processed2 == processed1.update(v as int, true));
            assert(qview0.drop_first() =~= queue@.subrange(head as int, queue@.len() as int));
            // the freshly ordered node had all its predecessors ordered before it
            assert(counts0[v as int] == 0);
            assert(inter_card(d[v as int], result0) >= d[v as int].len());
            lemma_all_deps_in(d[v as int], result0);
            assert(result@.take(result0.len() as int) =~= result0);
            assert(!result0.contains(v));
            assert forall|k: int, x: usize|
                0 <= k < result@.len() && #[trigger] d[result@[k] as int].contains(x)
                    implies result@.take(k).contains(x) by {
                if k < result0.len() {
                    assert(result0[k] == result@[k]);
                    assert(result0.take(k) =~= result@.take(k));
                    assert(result0.take(k).contains(x));
                } else {
                    assert(result@[k] == v);
                    assert(result0.contains(x));
                    let m = choose|m: int| 0 <= m < result0.len() && result0[m] == x;
                    assert(result@.take(k)[m] == x);
                }
            };
            // queue members other than the head keep their facts
            assert forall|k: int|
                head <= k < queue@.len() implies (queue@[k] as int) < n && counts@[queue@[k] as int]
                    == 0 && !processed@[queue@[k] as int] by {
                assert(queue@[k] == qview0[k - head + 1]);
                assert(qview0[k - head + 1] != qview0[0]);
            };
            // every ready node other than the popped one stays queued
            assert forall|x: int|
                0 <= x < n && !processed@[x] && counts@[x] == 0 implies queue@.subrange(
                head as int,
                queue@.len() as int,
            ).contains(#[trigger] (x as usize)) by {
                assert(qview0.contains(x as usize));
                let idx = choose|idx: int| 0 <= idx < qview0.len() && qview0[idx] == x as usize;
                assert(x != v as int);
                assert(idx != 0);
                assert(qview0.drop_first()[idx - 1] == x as usize);
            };
        }
        let ghost qmid0 = queue@.subrange(head as int, queue@.len() as int);
        let ghost qlen0 = queue@.len();
        let mut j: usize = 0;
        while j < n
            invariant
                n == deps@.len(),
                d == views_of(deps@),
                counts@.len() == n,
                processed@.len() == n,
                processed@ == processed2,
                head <= queue@.len(),
                qlen0 <= queue@.len(),
                j <= n,
                (v as int) < n,
                result@ == result0.push(v),
                !result0.contains(v),
                processed@[v as int],
                forall|x: int| 0 <= x < n ==> (processed@[x] <==> result@.contains(x as usize)),
                scan_step(
                    d,
                    v,
                    counts@,
                    processed@,
                    queue@.subrange(head as int, queue@.len() as int),
                    j as int,
                ) == scan_step(d, v, counts0, processed2, qmid0, 0),
                forall|k: int|
                    head <= k < queue@.len() ==> (queue@[k] as int) < n && counts@[queue@[k] as int]
                        == 0 && !processed@[queue@[k] as int],
                queue@.subrange(head as int, queue@.len() as int).no_duplicates(),
                forall|x: int|
                    0 <= x < n && !processed@[x] && x < j ==> counts@[x] as int == d[x].len()
                        - inter_card(d[x], result@),
                forall|x: int|
                    0 <= x < n && !processed@[x] && x >= j ==> counts@[x] as int == d[x].len()
                        - inter_card(d[x], result0),
                forall|x: int|
                    0 <= x < n && !processed@[x] && counts@[x] == 0 ==> queue@.subrange(
                        head as int,
                        queue@.len() as int,
                    ).contains(#[trigger] (x as usize)),
                sum_counts(counts@) + queue@.len() - qlen0 <= sum_counts(counts0),
            decreases n - j,
        {
            proof {
                lemma_inter_push(d[j as int], result0, v);
            }
            let ghost counts_pre = counts@;
            let ghost qv_pre = queue@.subrange(head as int, queue@.len() as int);
            if !processed[j] && contains_index(&deps[j], v) {
                proof {
                    // an unmet mention of the popped node keeps the count positive
                    lemma_inter_lt(d[j as int], result0, v);
                    assert(counts@[j as int] > 0);
                }
                if counts[j] > 0 {
                    let c = counts[j] - 1;
                    counts.set(j, c);
                    proof {
                        lemma_sum_update(counts_pre, j as int, c);
                    }
                    if c == 0 {
                        queue.push(j);
                        proof {
                            assert(queue@.subrange(head as int, queue@.len() as int) =~= qv_pre.push(
                                j,
                            ));
                            assert(counts_pre[j as int] > 0);
                            assert(!qv_pre.contains(j));
                            lemma_push_keeps_no_dup(qv_pre, j);
                            assert forall|x: int|
                                0 <= x < n && !processed@[x] && counts@[x] == 0
                                    implies queue@.subrange(
                                head as int,
                                queue@.len() as int,
                            ).contains(#[trigger] (x as usize)) by {
                                let qv_new = queue@.subrange(head as int, queue@.len() as int);
                                if x == j {
                                    assert(qv_new[qv_pre.len() as int] == j);
                                } else {
                                    assert(counts_pre[x] == 0);
                                    assert(qv_pre.contains(x as usize));
                                    let idx = choose|idx: int|
                                        0 <= idx < qv_pre.len() && qv_pre[idx] == x as usize;
                                    assert(qv_new[idx] == x as usize);
                                }
                            };
                        }
                    }
                }
            }
            j = j + 1;
        }
        proof {
            assert(scan_step(
                d,
                v,
                counts@,
                processed@,
                queue@.subrange(head as int, queue@.len() as int),
                n as int,
            ) == scan_step(d, v, counts0, processed2, qmid0, 0));
            assert(queue@.subrange(head as int, queue@.len() as int) == scan_step(
                d,
                v,
                counts0,
                processed2,
                qmid0,
                0,
            ).1);
            assert(counts@ == scan_step(d, v, counts0, processed2, qmid0, 0).0);
            assert(qmid0 == qview0.drop_first());
            assert(kahn_run(d, counts0, processed1, qview0, result0) == kahn_run(
                d,
                counts@,
                processed@,
                queue@.subrange(head as int, queue@.len() as int),
                result@,
            ));
            lemma_sum_nonneg(counts@);
            assert(sum_counts(counts@) + queue@.len() <= sum_counts(counts0) + qlen0);
        }
    }
    proof {
        assert(queue@.subrange(head as int, queue@.len() as int) =~= Seq::<usize>::empty());
        assert(result@ == topo_order_spec(d));
        lemma_no_dup_len_le(result@, n);
        assert forall|i0: int, j0: int|
            0 <= i0 < deps@.len() && 0 <= j0 < deps@.len() && #[trigger] d[i0].contains(j0 as usize)
                && #[trigger] d[j0].contains(i0 as usize) implies result@.len() < deps@.len() by {
            lemma_mutual_not_complete(d, result@, i0, j0);
        };
        // maximality: a node with a duplicate-free, wholly ordered list is ordered
        assert forall|i0: int|
            0 <= i0 < deps@.len() && #[trigger] d[i0].no_duplicates() && d[i0].to_set().subset_of(
                result@.to_set(),
            ) implies result@.contains(i0 as usize) by {
            if !result@.contains(i0 as usize) {
                assert(!processed@[i0]);
                d[i0].unique_seq_to_set();
                assert(d[i0].to_set().intersect(result@.to_set()) =~= d[i0].to_set());
                assert(inter_card(d[i0], result@) == d[i0].len());
                assert(counts@[i0] == 0);
                assert(queue@.subrange(head as int, queue@.len() as int).contains(i0 as usize));
            }
        };
    }
    let has_cycle = result.len() != n;
    (result, has_cycle)
}

} // verus!
