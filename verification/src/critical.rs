//! Critical Path Method (CPM) over a bead dependency graph.
//!
//! Nodes reference their predecessors (`blocked_by`) and successors
//! (`blocks`) by id.  The analysis resolves those references to indices,
//! orders the graph topologically (failing closed on a cycle), runs a
//! forward pass for earliest start and finish times, takes the project
//! duration, runs a backward pass for latest start times, computes per-node
//! slack, and reconstructs one linear zero-slack chain as the critical path.
//!
//! Every quantity the analysis returns is pinned to a specification function
//! of the input alone, so re-running it on identical input yields identical
//! results.

use vstd::prelude::*;
use crate::resolve::{
    str_views, resolve_refs, resolve_refs_exec, lemma_resolve_contains,
};
use crate::topo::{topological_order, topo_order_spec, views_of, contains_index};

verus! {

/// A schedulable work item, with id-based cross references.
///
/// `blocked_by` lists the ids of the nodes that must finish before this one
/// starts; `blocks` lists the ids of the nodes waiting on it.  The two are
/// expected to mirror each other; the input supplies both.  A missing
/// duration counts as one time unit.
#[derive(Debug, Clone)]
pub struct BeadNode {
    pub id: String,
    pub title: String,
    pub status: String,
    pub priority: u32,
    pub blocked_by: Vec<String>,
    pub blocks: Vec<String>,
    pub duration: Option<u32>,
}

/// Outcome of the analysis: one zero-slack chain of ids, the project
/// duration, and the slack of every node, keyed by id in execution order.
#[derive(Debug, Clone)]
pub struct CriticalPathResult {
    pub path: Vec<String>,
    pub total_duration: u64,
    pub slack: Vec<(String, u64)>,
}

/// Why the analysis refused the input.
#[derive(Debug, Clone, Copy, PartialEq, Eq)]
pub enum AnalysisError {
    /// The id-based dependency graph is not acyclic.
    CycleDetected,
}

/// The value of the first slack entry recorded under this id, if any.
pub open spec fn first_slack(entries: Seq<(String, u64)>, id: Seq<char>) -> Option<u64>
    decreases entries.len(),
{
    if entries.len() == 0 {
        None
    } else if entries[0].0@ == id {
        Some(entries[0].1)
    } else {
        first_slack(entries.drop_first(), id)
    }
}

proof fn lemma_first_slack_at(entries: Seq<(String, u64)>, id: Seq<char>, k: int)
    requires
        0 <= k < entries.len(),
        forall|m: int| 0 <= m < k ==> (#[trigger] entries[m].0)@ != id,
        entries[k].0@ == id,
    ensures
        first_slack(entries, id) == Some(entries[k].1),
    decreases k,
{
    if k > 0 {
        lemma_first_slack_at(entries.drop_first(), id, k - 1);
    }
}

proof fn lemma_first_slack_none(entries: Seq<(String, u64)>, id: Seq<char>)
    requires
        forall|m: int| 0 <= m < entries.len() ==> (#[trigger] entries[m].0)@ != id,
    ensures
        first_slack(entries, id) is None,
    decreases entries.len(),
{
    if entries.len() > 0 {
        lemma_first_slack_none(entries.drop_first(), id);
    }
}

impl CriticalPathResult {
    /// The slack recorded for this id: the first matching entry of the
    /// table, or nothing when the id does not appear.
    pub fn slack_of(&self, id: &String) -> (r: Option<u64>)
        ensures
            r == first_slack(self.slack@, id@),
    {
        let mut k: usize = 0;
        while k < self.slack.len()
            invariant
                k <= self.slack@.len(),
                forall|m: int| 0 <= m < k ==> (#[trigger] self.slack@[m].0)@ != id@,
            decreases self.slack@.len() - k,
        {
            if self.slack[k].0 == *id {
                proof {
                    lemma_first_slack_at(self.slack@, id@, k as int);
                }
                return Some(self.slack[k].1);
            }
            k = k + 1;
        }
        proof {
            lemma_first_slack_none(self.slack@, id@);
        }
        None
    }
}

/// Addition that stops at the largest representable time.
pub open spec fn sat_add(a: u64, b: u64) -> u64 {
    if a + b > u64::MAX {
        u64::MAX
    } else {
        (a + b) as u64
    }
}

/// Subtraction floored at zero.
pub open spec fn sat_sub(a: u64, b: u64) -> u64 {
    if a < b {
        0u64
    } else {
        (a - b) as u64
    }
}

/// Effective duration of a bead: the declared one, or one unit.
pub open spec fn dur_of(b: BeadNode) -> u64 {
    match b.duration {
        Some(d) => d as u64,
        None => 1u64,
    }
}

/// The ids of the beads, as character sequences.
pub open spec fn id_views(beads: Seq<BeadNode>) -> Seq<Seq<char>> {
    beads.map_values(|b: BeadNode| b.id@)
}

/// The effective durations of the beads.
pub open spec fn durations_of(beads: Seq<BeadNode>) -> Seq<u64> {
    beads.map_values(|b: BeadNode| dur_of(b))
}

/// Predecessor indices of every bead: its `blocked_by` ids resolved against
/// the bead ids, dangling ones dropped.
pub open spec fn rdeps_of(beads: Seq<BeadNode>) -> Seq<Seq<usize>> {
    Seq::new(beads.len(), |i: int| resolve_refs(id_views(beads), str_views(beads[i].blocked_by@)))
}

/// Successor indices of every bead, from its `blocks` ids.
pub open spec fn rsuccs_of(beads: Seq<BeadNode>) -> Seq<Seq<usize>> {
    Seq::new(beads.len(), |i: int| resolve_refs(id_views(beads), str_views(beads[i].blocks@)))
}

/// The execution order the strict sorter assigns to the beads.
pub open spec fn cpm_order(beads: Seq<BeadNode>) -> Seq<usize> {
    topo_order_spec(rdeps_of(beads))
}

/// Largest recorded finish time among the listed predecessors, from `k` on.
pub open spec fn max_finish(ds: Seq<usize>, ef: Seq<u64>, done: Seq<bool>, k: int, acc: u64) -> u64
    decreases ds.len() - k,
{
    if k < 0 || k >= ds.len() {
        acc
    } else {
        let t = ds[k] as int;
        let acc2 = if t < ef.len() && t < done.len() && done[t] && ef[t] > acc {
            ef[t]
        } else {
            acc
        };
        max_finish(ds, ef, done, k + 1, acc2)
    }
}

/// Forward pass over the first `k` nodes of the order: earliest start,
/// earliest finish, and which nodes are computed.
pub open spec fn fwd(rdeps: Seq<Seq<usize>>, dur: Seq<u64>, order: Seq<usize>, k: int) -> (
    Seq<u64>,
    Seq<u64>,
    Seq<bool>,
)
    decreases k,
{
    let n = rdeps.len();
    if k <= 0 {
        (Seq::new(n, |x: int| 0u64), Seq::new(n, |x: int| 0u64), Seq::new(n, |x: int| false))
    } else {
        let st = fwd(rdeps, dur, order, k - 1);
        let v = order[k - 1] as int;
        let e = max_finish(rdeps[v], st.1, st.2, 0, 0u64);
        let f = sat_add(e, dur[v]);
        (st.0.update(v, e), st.1.update(v, f), st.2.update(v, true))
    }
}

/// Largest computed earliest-finish time from node `k` on: the project
/// duration once every node is in.
pub open spec fn max_total(ef: Seq<u64>, done: Seq<bool>, k: int, acc: u64) -> u64
    decreases ef.len() - k,
{
    if k < 0 || k >= ef.len() {
        acc
    } else {
        let acc2 = if k < done.len() && done[k] && ef[k] > acc {
            ef[k]
        } else {
            acc
        };
        max_total(ef, done, k + 1, acc2)
    }
}

/// Smallest recorded latest-start time among the listed successors, from
/// `k` on; the flag says whether any was recorded.
pub open spec fn min_start(
    ss: Seq<usize>,
    ls: Seq<u64>,
    done: Seq<bool>,
    k: int,
    found: bool,
    m: u64,
) -> (bool, u64)
    decreases ss.len() - k,
{
    if k < 0 || k >= ss.len() {
        (found, m)
    } else {
        let t = ss[k] as int;
        if t < ls.len() && t < done.len() && done[t] && (!found || ls[t] < m) {
            min_start(ss, ls, done, k + 1, true, ls[t])
        } else {
            min_start(ss, ls, done, k + 1, found, m)
        }
    }
}

/// Backward pass over the last `k` nodes of the order: latest start times
/// and which nodes are computed.  A node with no computed successor finishes
/// at the project duration.
pub open spec fn bwd(
    rsuccs: Seq<Seq<usize>>,
    dur: Seq<u64>,
    order: Seq<usize>,
    total: u64,
    k: int,
) -> (Seq<u64>, Seq<bool>)
    decreases k,
{
    let n = rsuccs.len();
    if k <= 0 {
        (Seq::new(n, |x: int| 0u64), Seq::new(n, |x: int| false))
    } else {
        let st = bwd(rsuccs, dur, order, total, k - 1);
        let v = order[order.len() - k] as int;
        let r = min_start(rsuccs[v], st.0, st.1, 0, false, 0u64);
        let lf = if r.0 {
            r.1
        } else {
            total
        };
        let lsv = sat_sub(lf, dur[v]);
        (st.0.update(v, lsv), st.1.update(v, true))
    }
}

/// Forward-pass results for the whole order.
pub open spec fn fwd_of(beads: Seq<BeadNode>) -> (Seq<u64>, Seq<u64>, Seq<bool>) {
    fwd(rdeps_of(beads), durations_of(beads), cpm_order(beads), cpm_order(beads).len() as int)
}

/// Earliest start time of every bead.
pub open spec fn es_of(beads: Seq<BeadNode>) -> Seq<u64> {
    fwd_of(beads).0
}

/// The project duration: the largest earliest-finish time, zero when empty.
pub open spec fn total_of(beads: Seq<BeadNode>) -> u64 {
    max_total(fwd_of(beads).1, fwd_of(beads).2, 0, 0u64)
}

/// Latest start time of every bead.
pub open spec fn ls_of(beads: Seq<BeadNode>) -> Seq<u64> {
    bwd(
        rsuccs_of(beads),
        durations_of(beads),
        cpm_order(beads),
        total_of(beads),
        cpm_order(beads).len() as int,
    ).0
}

/// Slack of bead `i`: how far its start can slip, floored at zero.
pub open spec fn slack_at(beads: Seq<BeadNode>, i: int) -> u64 {
    sat_sub(ls_of(beads)[i], es_of(beads)[i])
}

/// The critical nodes: the first `k` order positions whose slack is zero.
pub open spec fn crit_fold(order: Seq<usize>, es: Seq<u64>, ls: Seq<u64>, k: int) -> Seq<usize>
    decreases k,
{
    if k <= 0 {
        Seq::empty()
    } else {
        let c = crit_fold(order, es, ls, k - 1);
        let v = order[k - 1];
        if sat_sub(ls[v as int], es[v as int]) == 0 {
            c.push(v)
        } else {
            c
        }
    }
}

/// All critical nodes, in execution order.
pub open spec fn crit_of(beads: Seq<BeadNode>) -> Seq<usize> {
    crit_fold(cpm_order(beads), es_of(beads), ls_of(beads), cpm_order(beads).len() as int)
}

/// First entry of `list`, from `k` on, that occurs in `within`.
pub open spec fn first_hit(list: Seq<usize>, within: Seq<usize>, k: int) -> (bool, usize)
    decreases list.len() - k,
{
    if k < 0 || k >= list.len() {
        (false, 0usize)
    } else if within.contains(list[k]) {
        (true, list[k])
    } else {
        first_hit(list, within, k + 1)
    }
}

/// First critical node, from position `k` on, with no critical predecessor:
/// the start of the critical path.
pub open spec fn find_start(crit: Seq<usize>, rdeps: Seq<Seq<usize>>, k: int) -> (bool, usize)
    decreases crit.len() - k,
{
    if k < 0 || k >= crit.len() {
        (false, 0usize)
    } else {
        let c = crit[k];
        if (c as int) < rdeps.len() && !first_hit(rdeps[c as int], crit, 0).0 {
            (true, c)
        } else {
            find_start(crit, rdeps, k + 1)
        }
    }
}

/// Walk from the current node to its first critical successor, appending as
/// long as one exists and fuel remains.  One step per node suffices on
/// consistent input, so the walk is given one unit of fuel per node.
pub open spec fn build_path(
    rsuccs: Seq<Seq<usize>>,
    crit: Seq<usize>,
    acc: Seq<usize>,
    cur: usize,
    fuel: int,
) -> Seq<usize>
    decreases fuel,
{
    if fuel <= 0 || (cur as int) >= rsuccs.len() {
        acc
    } else {
        let h = first_hit(rsuccs[cur as int], crit, 0);
        if h.0 {
            build_path(rsuccs, crit, acc.push(h.1), h.1, fuel - 1)
        } else {
            acc
        }
    }
}

/// The critical path, as node indices: from the critical node with no
/// critical predecessor, along first critical successors.  With no such
/// start the critical set itself stands in, in execution order; an empty
/// critical set gives an empty path.
pub open spec fn path_of(beads: Seq<BeadNode>) -> Seq<usize> {
    let crit = crit_of(beads);
    if crit.len() == 0 {
        Seq::empty()
    } else {
        let fs = find_start(crit, rdeps_of(beads), 0);
        if fs.0 {
            build_path(rsuccs_of(beads), crit, seq![fs.1], fs.1, beads.len() as int)
        } else {
            crit
        }
    }
}

pub proof fn lemma_first_hit_in(list: Seq<usize>, within: Seq<usize>, k: int)
    ensures
        first_hit(list, within, k).0 ==> within.contains(first_hit(list, within, k).1),
    decreases list.len() - k,
{
    if k < 0 || k >= list.len() {
    } else if within.contains(list[k]) {
    } else {
        lemma_first_hit_in(list, within, k + 1);
    }
}

pub proof fn lemma_find_start_in(crit: Seq<usize>, rdeps: Seq<Seq<usize>>, k: int)
    ensures
        find_start(crit, rdeps, k).0 ==> crit.contains(find_start(crit, rdeps, k).1),
    decreases crit.len() - k,
{
    if k < 0 || k >= crit.len() {
    } else {
        let c = crit[k];
        if (c as int) < rdeps.len() && !first_hit(rdeps[c as int], crit, 0).0 {
            assert(crit[k] == c);
        } else {
            lemma_find_start_in(crit, rdeps, k + 1);
        }
    }
}

/// Every node of a walked path was already accumulated or is critical.
pub proof fn lemma_build_path_members(
    rsuccs: Seq<Seq<usize>>,
    crit: Seq<usize>,
    acc: Seq<usize>,
    cur: usize,
    fuel: int,
)
    ensures
        forall|x: usize|
            build_path(rsuccs, crit, acc, cur, fuel).contains(x) ==> acc.contains(x)
                || crit.contains(x),
    decreases fuel,
{
    if fuel <= 0 || (cur as int) >= rsuccs.len() {
    } else {
        let h = first_hit(rsuccs[cur as int], crit, 0);
        if h.0 {
            lemma_first_hit_in(rsuccs[cur as int], crit, 0);
            lemma_build_path_members(rsuccs, crit, acc.push(h.1), h.1, fuel - 1);
            assert forall|x: usize|
                build_path(rsuccs, crit, acc, cur, fuel).contains(x) implies acc.contains(x)
                || crit.contains(x) by {
                if acc.push(h.1).contains(x) && !crit.contains(x) {
                    let m = choose|m: int| 0 <= m < acc.push(h.1).len() && acc.push(h.1)[m] == x;
                    assert(m < acc.len());
                    assert(acc[m] == x);
                }
            };
        }
    }
}

/// Every critical node stands somewhere in the order, with zero slack there.
pub proof fn lemma_crit_members(order: Seq<usize>, es: Seq<u64>, ls: Seq<u64>, k: int)
    requires
        k <= order.len(),
    ensures
        forall|x: usize|
            crit_fold(order, es, ls, k).contains(x) ==> sat_sub(ls[x as int], es[x as int]) == 0
                && (exists|j: int| 0 <= j < k && order[j] == x),
    decreases k,
{
    if k <= 0 {
    } else {
        lemma_crit_members(order, es, ls, k - 1);
        let c = crit_fold(order, es, ls, k - 1);
        let v = order[k - 1];
        if sat_sub(ls[v as int], es[v as int]) == 0 {
            assert forall|x: usize|
                crit_fold(order, es, ls, k).contains(x) implies sat_sub(ls[x as int], es[x as int])
                == 0 && (exists|j: int| 0 <= j < k && order[j] == x) by {
                let m = choose|m: int|
                    0 <= m < c.push(v).len() && c.push(v)[m] == x;
                if m < c.len() {
                    assert(c[m] == x);
                    assert(c.contains(x));
                } else {
                    assert(x == v);
                    assert(order[k - 1] == x);
                }
            };
        }
    }
}

/// The bead ids, copied out for resolution.
fn bead_ids(beads: &Vec<BeadNode>) -> (r: Vec<String>)
    ensures
        r@.len() == beads@.len(),
        str_views(r@) == id_views(beads@),
        forall|k: int| 0 <= k < beads@.len() ==> r@[k]@ == beads@[k].id@,
{
    let mut out: Vec<String> = Vec::new();
    let mut i: usize = 0;
    while i < beads.len()
        invariant
            i <= beads@.len(),
            out@.len() == i,
            forall|k: int| 0 <= k < i ==> out@[k]@ == beads@[k].id@,
        decreases beads@.len() - i,
    {
        out.push(beads[i].id.clone());
        i = i + 1;
    }
    proof {
        assert(str_views(out@) =~= id_views(beads@));
    }
    out
}

/// The effective duration of every bead.
fn bead_durations(beads: &Vec<BeadNode>) -> (r: Vec<u64>)
    ensures
        r@ == durations_of(beads@),
{
    let mut out: Vec<u64> = Vec::new();
    let mut i: usize = 0;
    while i < beads.len()
        invariant
            i <= beads@.len(),
            out@.len() == i,
            forall|k: int| 0 <= k < i ==> out@[k] == dur_of(beads@[k]),
        decreases beads@.len() - i,
    {
        let d: u64 = match beads[i].duration {
            Some(d) => d as u64,
            None => 1u64,
        };
        out.push(d);
        i = i + 1;
    }
    proof {
        assert(out@ =~= durations_of(beads@));
    }
    out
}

/// Predecessor index lists of every bead.
fn resolve_dep_lists(beads: &Vec<BeadNode>, ids: &Vec<String>) -> (r: Vec<Vec<usize>>)
    requires
        str_views(ids@) == id_views(beads@),
        ids@.len() == beads@.len(),
    ensures
        r@.len() == beads@.len(),
        views_of(r@) == rdeps_of(beads@),
        forall|k: int, m: int|
            0 <= k < r@.len() && 0 <= m < r@[k]@.len() ==> (r@[k]@[m] as int) < beads@.len(),
{
    let mut out: Vec<Vec<usize>> = Vec::new();
    let mut i: usize = 0;
    while i < beads.len()
        invariant
            i <= beads@.len(),
            str_views(ids@) == id_views(beads@),
            ids@.len() == beads@.len(),
            out@.len() == i,
            forall|k: int|
                0 <= k < i ==> out@[k]@ == resolve_refs(
                    id_views(beads@),
                    str_views(beads@[k].blocked_by@),
                ),
            forall|k: int, m: int|
                0 <= k < i && 0 <= m < out@[k]@.len() ==> (out@[k]@[m] as int) < beads@.len(),
        decreases beads@.len() - i,
    {
        let resolved = resolve_refs_exec(ids, &beads[i].blocked_by);
        out.push(resolved);
        i = i + 1;
    }
    proof {
        assert(views_of(out@) =~= rdeps_of(beads@));
    }
    out
}

/// Successor index lists of every bead.
fn resolve_succ_lists(beads: &Vec<BeadNode>, ids: &Vec<String>) -> (r: Vec<Vec<usize>>)
    requires
        str_views(ids@) == id_views(beads@),
        ids@.len() == beads@.len(),
    ensures
        r@.len() == beads@.len(),
        views_of(r@) == rsuccs_of(beads@),
        forall|k: int, m: int|
            0 <= k < r@.len() && 0 <= m < r@[k]@.len() ==> (r@[k]@[m] as int) < beads@.len(),
{
    let mut out: Vec<Vec<usize>> = Vec::new();
    let mut i: usize = 0;
    while i < beads.len()
        invariant
            i <= beads@.len(),
            str_views(ids@) == id_views(beads@),
            ids@.len() == beads@.len(),
            out@.len() == i,
            forall|k: int|
                0 <= k < i ==> out@[k]@ == resolve_refs(
                    id_views(beads@),
                    str_views(beads@[k].blocks@),
                ),
            forall|k: int, m: int|
                0 <= k < i && 0 <= m < out@[k]@.len() ==> (out@[k]@[m] as int) < beads@.len(),
        decreases beads@.len() - i,
    {
        let resolved = resolve_refs_exec(ids, &beads[i].blocks);
        out.push(resolved);
        i = i + 1;
    }
    proof {
        assert(views_of(out@) =~= rsuccs_of(beads@));
    }
    out
}

/// Forward pass: earliest start and finish of every ordered node.
fn forward_pass(rdeps: &Vec<Vec<usize>>, dur: &Vec<u64>, order: &Vec<usize>) -> (r: (
    Vec<u64>,
    Vec<u64>,
    Vec<bool>,
))
    requires
        dur@.len() == rdeps@.len(),
        forall|k: int| 0 <= k < order@.len() ==> (order@[k] as int) < rdeps@.len(),
        forall|k: int, m: int|
            0 <= k < rdeps@.len() && 0 <= m < rdeps@[k]@.len() ==> (rdeps@[k]@[m] as int)
                < rdeps@.len(),
    ensures
        (r.0@, r.1@, r.2@) == fwd(views_of(rdeps@), dur@, order@, order@.len() as int),
        r.0@.len() == rdeps@.len(),
        r.1@.len() == rdeps@.len(),
        r.2@.len() == rdeps@.len(),
{
    let ghost rd = views_of(rdeps@);
    let n = rdeps.len();
    let mut es: Vec<u64> = Vec::new();
    let mut ef: Vec<u64> = Vec::new();
    let mut done: Vec<bool> = Vec::new();
    let mut i: usize = 0;
    while i < n
        invariant
            i <= n,
            n == rdeps@.len(),
            es@.len() == i,
            ef@.len() == i,
            done@.len() == i,
            forall|x: int| 0 <= x < i ==> es@[x] == 0u64 && ef@[x] == 0u64 && !done@[x],
        decreases n - i,
    {
        es.push(0);
        ef.push(0);
        done.push(false);
        i = i + 1;
    }
    proof {
        assert(es@ =~= Seq::new(rd.len(), |x: int| 0u64));
        assert(ef@ =~= Seq::new(rd.len(), |x: int| 0u64));
        assert(done@ =~= Seq::new(rd.len(), |x: int| false));
    }
    let mut k: usize = 0;
    while k < order.len()
        invariant
            n == rdeps@.len(),
            rd == views_of(rdeps@),
            dur@.len() == n,
            es@.len() == n,
            ef@.len() == n,
            done@.len() == n,
            k <= order@.len(),
            forall|k2: int| 0 <= k2 < order@.len() ==> (order@[k2] as int) < n,
            forall|k2: int, m: int|
                0 <= k2 < rdeps@.len() && 0 <= m < rdeps@[k2]@.len() ==> (rdeps@[k2]@[m] as int)
                    < n,
            (es@, ef@, done@) == fwd(rd, dur@, order@, k as int),
        decreases order@.len() - k,
    {
        let v = order[k];
        let ds = &rdeps[v];
        let mut m: u64 = 0;
        let mut t: usize = 0;
        while t < ds.len()
            invariant
                rd == views_of(rdeps@),
                (v as int) < n,
                n == rdeps@.len(),
                ds@ == rd[v as int],
                ef@.len() == n,
                done@.len() == n,
                t <= ds@.len(),
                forall|m2: int| 0 <= m2 < ds@.len() ==> (ds@[m2] as int) < n,
                max_finish(rd[v as int], ef@, done@, t as int, m) == max_finish(
                    rd[v as int],
                    ef@,
                    done@,
                    0,
                    0u64,
                ),
            decreases ds@.len() - t,
        {
            let x = ds[t];
            if done[x] && ef[x] > m {
                m = ef[x];
            }
            t = t + 1;
        }
        let e = m;
        let dv = dur[v];
        let f = if e > u64::MAX - dv {
            u64::MAX
        } else {
            e + dv
        };
        proof {
            assert(f == sat_add(e, dv));
        }
        es.set(v, e);
        ef.set(v, f);
        done.set(v, true);
        k = k + 1;
    }
    (es, ef, done)
}

/// The largest computed earliest-finish time.
fn compute_total(ef: &Vec<u64>, done: &Vec<bool>) -> (r: u64)
    requires
        done@.len() == ef@.len(),
    ensures
        r == max_total(ef@, done@, 0, 0u64),
{
    let mut m: u64 = 0;
    let mut k: usize = 0;
    while k < ef.len()
        invariant
            k <= ef@.len(),
            done@.len() == ef@.len(),
            max_total(ef@, done@, k as int, m) == max_total(ef@, done@, 0, 0u64),
        decreases ef@.len() - k,
    {
        if done[k] && ef[k] > m {
            m = ef[k];
        }
        k = k + 1;
    }
    m
}

/// Backward pass: latest start of every ordered node, in reverse order.
fn backward_pass(rsuccs: &Vec<Vec<usize>>, dur: &Vec<u64>, order: &Vec<usize>, total: u64) -> (r: (
    Vec<u64>,
    Vec<bool>,
))
    requires
        dur@.len() == rsuccs@.len(),
        forall|k: int| 0 <= k < order@.len() ==> (order@[k] as int) < rsuccs@.len(),
        forall|k: int, m: int|
            0 <= k < rsuccs@.len() && 0 <= m < rsuccs@[k]@.len() ==> (rsuccs@[k]@[m] as int)
                < rsuccs@.len(),
    ensures
        (r.0@, r.1@) == bwd(views_of(rsuccs@), dur@, order@, total, order@.len() as int),
        r.0@.len() == rsuccs@.len(),
        r.1@.len() == rsuccs@.len(),
{
    let ghost rs = views_of(rsuccs@);
    let n = rsuccs.len();
    let mut ls: Vec<u64> = Vec::new();
    let mut bdone: Vec<bool> = Vec::new();
    let mut i: usize = 0;
    while i < n
        invariant
            i <= n,
            n == rsuccs@.len(),
            ls@.len() == i,
            bdone@.len() == i,
            forall|x: int| 0 <= x < i ==> ls@[x] == 0u64 && !bdone@[x],
        decreases n - i,
    {
        ls.push(0);
        bdone.push(false);
        i = i + 1;
    }
    proof {
        assert(ls@ =~= Seq::new(rs.len(), |x: int| 0u64));
        assert(bdone@ =~= Seq::new(rs.len(), |x: int| false));
    }
    let mut k: usize = 0;
    while k < order.len()
        invariant
            n == rsuccs@.len(),
            rs == views_of(rsuccs@),
            dur@.len() == n,
            ls@.len() == n,
            bdone@.len() == n,
            k <= order@.len(),
            forall|k2: int| 0 <= k2 < order@.len() ==> (order@[k2] as int) < n,
            forall|k2: int, m: int|
                0 <= k2 < rsuccs@.len() && 0 <= m < rsuccs@[k2]@.len() ==> (rsuccs@[k2]@[m] as int)
                    < n,
            (ls@, bdone@) == bwd(rs, dur@, order@, total, k as int),
        decreases order@.len() - k,
    {
        let v = order[order.len() - 1 - k];
        let ss = &rsuccs[v];
        let mut found = false;
        let mut m: u64 = 0;
        let mut t: usize = 0;
        while t < ss.len()
            invariant
                rs == views_of(rsuccs@),
                (v as int) < n,
                n == rsuccs@.len(),
                ss@ == rs[v as int],
                ls@.len() == n,
                bdone@.len() == n,
                t <= ss@.len(),
                forall|m2: int| 0 <= m2 < ss@.len() ==> (ss@[m2] as int) < n,
                min_start(rs[v as int], ls@, bdone@, t as int, found, m) == min_start(
                    rs[v as int],
                    ls@,
                    bdone@,
                    0,
                    false,
                    0u64,
                ),
            decreases ss@.len() - t,
        {
            let x = ss[t];
            if bdone[x] && (!found || ls[x] < m) {
                found = true;
                m = ls[x];
            }
            t = t + 1;
        }
        let lf = if found {
            m
        } else {
            total
        };
        let dv = dur[v];
        let lsv = if lf < dv {
            0
        } else {
            lf - dv
        };
        proof {
            assert(lsv == sat_sub(lf, dv));
        }
        ls.set(v, lsv);
        bdone.set(v, true);
        k = k + 1;
    }
    (ls, bdone)
}

/// Per-node slack in execution order, and the zero-slack nodes.
fn slack_and_crit(order: &Vec<usize>, es: &Vec<u64>, ls: &Vec<u64>, ids: &Vec<String>) -> (r: (
    Vec<(String, u64)>,
    Vec<usize>,
))
    requires
        es@.len() == ls@.len(),
        ids@.len() == es@.len(),
        forall|k: int| 0 <= k < order@.len() ==> (order@[k] as int) < es@.len(),
    ensures
        r.0@.len() == order@.len(),
        forall|k: int|
            0 <= k < order@.len() ==> r.0@[k].0@ == ids@[order@[k] as int]@ && r.0@[k].1 == sat_sub(
                ls@[order@[k] as int],
                es@[order@[k] as int],
            ),
        r.1@ == crit_fold(order@, es@, ls@, order@.len() as int),
        forall|k: int| 0 <= k < r.1@.len() ==> (r.1@[k] as int) < es@.len(),
{
    let mut slack: Vec<(String, u64)> = Vec::new();
    let mut crit: Vec<usize> = Vec::new();
    let mut k: usize = 0;
    while k < order.len()
        invariant
            es@.len() == ls@.len(),
            ids@.len() == es@.len(),
            k <= order@.len(),
            forall|k2: int| 0 <= k2 < order@.len() ==> (order@[k2] as int) < es@.len(),
            slack@.len() == k,
            forall|m: int|
                0 <= m < k ==> slack@[m].0@ == ids@[order@[m] as int]@ && slack@[m].1 == sat_sub(
                    ls@[order@[m] as int],
                    es@[order@[m] as int],
                ),
            crit@ == crit_fold(order@, es@, ls@, k as int),
            forall|m: int| 0 <= m < crit@.len() ==> (crit@[m] as int) < es@.len(),
        decreases order@.len() - k,
    {
        let v = order[k];
        let e = es[v];
        let l = ls[v];
        let sv = if l < e {
            0
        } else {
            l - e
        };
        proof {
            assert(sv == sat_sub(ls@[v as int], es@[v as int]));
        }
        slack.push((ids[v].clone(), sv));
        if sv == 0 {
            crit.push(v);
        }
        k = k + 1;
    }
    (slack, crit)
}

/// First critical node with no critical predecessor, if any.
fn find_path_start(crit: &Vec<usize>, rdeps: &Vec<Vec<usize>>) -> (r: Option<usize>)
    requires
        forall|k: int| 0 <= k < crit@.len() ==> (crit@[k] as int) < rdeps@.len(),
    ensures
        r matches Some(s) ==> find_start(crit@, views_of(rdeps@), 0) == (true, s),
        r is None ==> !find_start(crit@, views_of(rdeps@), 0).0,
{
    let ghost rd = views_of(rdeps@);
    let mut t: usize = 0;
    while t < crit.len()
        invariant
            rd == views_of(rdeps@),
            t <= crit@.len(),
            forall|k: int| 0 <= k < crit@.len() ==> (crit@[k] as int) < rdeps@.len(),
            find_start(crit@, rd, t as int) == find_start(crit@, rd, 0),
        decreases crit@.len() - t,
    {
        let c = crit[t];
        let ds = &rdeps[c];
        let mut found_dep = false;
        let mut u: usize = 0;
        while u < ds.len()
            invariant
                rd == views_of(rdeps@),
                (c as int) < rdeps@.len(),
                ds@ == rd[c as int],
                u <= ds@.len(),
                found_dep ==> first_hit(rd[c as int], crit@, 0).0,
                !found_dep ==> first_hit(rd[c as int], crit@, u as int) == first_hit(
                    rd[c as int],
                    crit@,
                    0,
                ),
            decreases ds@.len() - u,
        {
            if !found_dep {
                if contains_index(crit, ds[u]) {
                    found_dep = true;
                }
            }
            u = u + 1;
        }
        if !found_dep {
            return Some(c);
        }
        t = t + 1;
    }
    None
}

/// Follow first critical successors from the start node, one step of fuel
/// per node.
fn walk_critical(rsuccs: &Vec<Vec<usize>>, crit: &Vec<usize>, start: usize, fuel0: usize) -> (r:
    Vec<usize>)
    requires
        (start as int) < rsuccs@.len(),
        forall|k: int, m: int|
            0 <= k < rsuccs@.len() && 0 <= m < rsuccs@[k]@.len() ==> (rsuccs@[k]@[m] as int)
                < rsuccs@.len(),
    ensures
        r@ == build_path(views_of(rsuccs@), crit@, seq![start], start, fuel0 as int),
        forall|k: int| 0 <= k < r@.len() ==> (r@[k] as int) < rsuccs@.len(),
{
    let ghost rs = views_of(rsuccs@);
    let mut path: Vec<usize> = Vec::new();
    path.push(start);
    proof {
        assert(path@ =~= seq![start]);
    }
    let mut cur: usize = start;
    let mut fuel: usize = fuel0;
    let mut stop = false;
    while fuel > 0 && !stop
        invariant
            rs == views_of(rsuccs@),
            (cur as int) < rsuccs@.len(),
            forall|k: int, m: int|
                0 <= k < rsuccs@.len() && 0 <= m < rsuccs@[k]@.len() ==> (rsuccs@[k]@[m] as int)
                    < rsuccs@.len(),
            build_path(rs, crit@, path@, cur, fuel as int) == build_path(
                rs,
                crit@,
                seq![start],
                start,
                fuel0 as int,
            ),
            forall|k: int| 0 <= k < path@.len() ==> (path@[k] as int) < rsuccs@.len(),
            stop ==> !first_hit(rs[cur as int], crit@, 0).0,
        decreases 2 * fuel + (if stop {
            0int
        } else {
            1int
        }),
    {
        let ss = &rsuccs[cur];
        let mut found = false;
        let mut s: usize = 0;
        let mut u: usize = 0;
        while u < ss.len()
            invariant
                rs == views_of(rsuccs@),
                (cur as int) < rsuccs@.len(),
                ss@ == rs[cur as int],
                u <= ss@.len(),
                forall|m2: int| 0 <= m2 < ss@.len() ==> (ss@[m2] as int) < rsuccs@.len(),
                found ==> first_hit(rs[cur as int], crit@, 0) == (true, s) && (s as int)
                    < rsuccs@.len(),
                !found ==> first_hit(rs[cur as int], crit@, u as int) == first_hit(
                    rs[cur as int],
                    crit@,
                    0,
                ),
            decreases ss@.len() - u,
        {
            if !found {
                let x = ss[u];
                if contains_index(crit, x) {
                    found = true;
                    s = x;
                }
            }
            u = u + 1;
        }
        if found {
            path.push(s);
            cur = s;
            fuel = fuel - 1;
        } else {
            stop = true;
        }
    }
    path
}

/// Compute the critical path, the project duration and every node's slack,
/// failing closed with `CycleDetected` when the id-based dependency graph is
/// not acyclic.
///
/// Every returned quantity equals a specification function of the input, so
/// re-running the analysis on identical input gives identical results.  The
/// contract further states: success happens exactly when the strict
/// topological order covers all nodes; every slack is non-negative; every id
/// on the critical path appears in the slack table with slack zero; the
/// empty graph yields duration zero, an empty path and an empty table; and a
/// mutual (or self-referential) dependency between beads with
/// duplicate-free ids always ends in `CycleDetected`.
pub fn critical_path_internal(beads: &Vec<BeadNode>) -> (r: Result<
    CriticalPathResult,
    AnalysisError,
>)
    ensures
        r is Ok <==> cpm_order(beads@).len() == beads@.len(),
        r is Err ==> r->Err_0 == AnalysisError::CycleDetected,
        r is Ok ==> r->Ok_0.total_duration == total_of(beads@),
        r is Ok ==> r->Ok_0.slack@.len() == beads@.len(),
        r is Ok ==> forall|k: int|
            0 <= k < beads@.len() ==> (cpm_order(beads@)[k] as int) < beads@.len()
                && r->Ok_0.slack@[k].0@ == id_views(beads@)[cpm_order(beads@)[k] as int]
                && r->Ok_0.slack@[k].1 == slack_at(beads@, cpm_order(beads@)[k] as int),
        r is Ok ==> r->Ok_0.path@.len() == path_of(beads@).len(),
        r is Ok ==> forall|k: int|
            0 <= k < path_of(beads@).len() ==> (path_of(beads@)[k] as int) < beads@.len()
                && r->Ok_0.path@[k]@ == id_views(beads@)[path_of(beads@)[k] as int],
        r is Ok ==> forall|k: int|
            0 <= k < path_of(beads@).len() ==> slack_at(beads@, path_of(beads@)[k] as int) == 0,
        r is Ok ==> forall|k: int|
            0 <= k < path_of(beads@).len() ==> exists|m: int|
                0 <= m < beads@.len() && #[trigger] cpm_order(beads@)[m] == #[trigger] path_of(
                    beads@,
                )[k],
        r is Ok ==> forall|k: int| 0 <= k < r->Ok_0.slack@.len() ==> r->Ok_0.slack@[k].1 >= 0,
        beads@.len() == 0 ==> r is Ok && r->Ok_0.total_duration == 0 && r->Ok_0.path@.len() == 0
            && r->Ok_0.slack@.len() == 0,
        id_views(beads@).no_duplicates() ==> forall|i: int, j: int|
            0 <= i < beads@.len() && 0 <= j < beads@.len()
                && #[trigger] str_views(beads@[i].blocked_by@).contains(id_views(beads@)[j])
                && #[trigger] str_views(beads@[j].blocked_by@).contains(id_views(beads@)[i])
                ==> r is Err,
{
    let ghost bs = beads@;
    let n = beads.len();
    let ids = bead_ids(beads);
    let durs = bead_durations(beads);
    let rdeps = resolve_dep_lists(beads, &ids);
    let rsuccs = resolve_succ_lists(beads, &ids);
    let sorted = topological_order(&rdeps);
    let order = sorted.0;
    let has_cycle = sorted.1;
    proof {
        assert(order@ == cpm_order(bs));
    }
    if has_cycle {
        return Err(AnalysisError::CycleDetected);
    }
    proof {
        // a mutual dependency would have kept the order short
        if id_views(bs).no_duplicates() {
            assert forall|i: int, j: int|
                0 <= i < bs.len() && 0 <= j < bs.len()
                    && #[trigger] str_views(bs[i].blocked_by@).contains(id_views(bs)[j])
                    && #[trigger] str_views(bs[j].blocked_by@).contains(id_views(bs)[i])
                    implies false by {
                lemma_resolve_contains(id_views(bs), str_views(bs[i].blocked_by@), j);
                lemma_resolve_contains(id_views(bs), str_views(bs[j].blocked_by@), i);
                assert(rdeps_of(bs)[i].contains(j as usize));
                assert(rdeps_of(bs)[j].contains(i as usize));
            };
        }
    }
    let fwd_r = forward_pass(&rdeps, &durs, &order);
    let es = fwd_r.0;
    let ef = fwd_r.1;
    let fdone = fwd_r.2;
    let total = compute_total(&ef, &fdone);
    let bwd_r = backward_pass(&rsuccs, &durs, &order, total);
    let ls = bwd_r.0;
    proof {
        assert(es@ == es_of(bs));
        assert(total == total_of(bs));
        assert(ls@ == ls_of(bs));
    }
    let sc = slack_and_crit(&order, &es, &ls, &ids);
    let slack = sc.0;
    let crit = sc.1;
    proof {
        assert(crit@ == crit_of(bs));
    }
    let mut path_idx: Vec<usize> = Vec::new();
    if crit.len() > 0 {
        match find_path_start(&crit, &rdeps) {
            Some(s) => {
                proof {
                    lemma_find_start_in(crit@, rdeps_of(bs), 0);
                }
                path_idx = walk_critical(&rsuccs, &crit, s, n);
            },
            None => {
                let mut k: usize = 0;
                while k < crit.len()
                    invariant
                        k <= crit@.len(),
                        path_idx@ == crit@.take(k as int),
                        forall|m: int| 0 <= m < crit@.len() ==> (crit@[m] as int) < n,
                        n == bs.len(),
                        crit@ == crit_of(bs),
                    decreases crit@.len() - k,
                {
                    path_idx.push(crit[k]);
                    proof {
                        assert(path_idx@ =~= crit@.take(k + 1 as int));
                    }
                    k = k + 1;
                }
                proof {
                    assert(crit@.take(crit@.len() as int) =~= crit@);
                }
            },
        }
    }
    proof {
        assert(path_idx@ == path_of(bs));
        lemma_crit_members(order@, es@, ls@, order@.len() as int);
        assert forall|k: int| 0 <= k < path_idx@.len() implies crit_of(bs).contains(
            path_idx@[k],
        ) by {
            let crit_s = crit_of(bs);
            if crit_s.len() == 0 {
            } else {
                let fs = find_start(crit_s, rdeps_of(bs), 0);
                if fs.0 {
                    lemma_find_start_in(crit_s, rdeps_of(bs), 0);
                    lemma_build_path_members(
                        rsuccs_of(bs),
                        crit_s,
                        seq![fs.1],
                        fs.1,
                        bs.len() as int,
                    );
                    assert(path_idx@.contains(path_idx@[k]));
                    if seq![fs.1].contains(path_idx@[k]) {
                        assert(path_idx@[k] == fs.1);
                    }
                } else {
                    assert(path_idx@.contains(path_idx@[k]));
                }
            }
        };
        assert forall|k: int| 0 <= k < path_idx@.len() implies (path_idx@[k] as int) < bs.len()
            && slack_at(bs, path_idx@[k] as int) == 0 by {
            let x = path_idx@[k];
            assert(crit_of(bs).contains(x));
            let j = choose|j: int| 0 <= j < order@.len() && order@[j] == x;
            assert((order@[j] as int) < bs.len());
        };
    }
    let mut path: Vec<String> = Vec::new();
    let mut k: usize = 0;
    while k < path_idx.len()
        invariant
            k <= path_idx@.len(),
            path@.len() == k,
            ids@.len() == n,
            n == bs.len(),
            forall|m: int| 0 <= m < path_idx@.len() ==> (path_idx@[m] as int) < n,
            forall|m: int| 0 <= m < bs.len() ==> ids@[m]@ == bs[m].id@,
            forall|m: int| 0 <= m < k ==> path@[m]@ == ids@[path_idx@[m] as int]@,
        decreases path_idx@.len() - k,
    {
        path.push(ids[path_idx[k]].clone());
        k = k + 1;
    }
    proof {
        if bs.len() == 0 {
            assert(total_of(bs) == 0);
            assert(crit_of(bs).len() == 0);
        }
    }
    let res = CriticalPathResult { path, total_duration: total, slack };
    proof {
        // every path node stands somewhere in the execution order
        assert forall|k2: int| 0 <= k2 < path_of(bs).len() implies exists|m: int|
            0 <= m < bs.len() && #[trigger] cpm_order(bs)[m] == #[trigger] path_of(bs)[k2] by {
            let x = path_idx@[k2];
            assert(crit_of(bs).contains(x));
            let j = choose|j: int| 0 <= j < order@.len() && order@[j] == x;
            assert(cpm_order(bs)[j] == path_of(bs)[k2]);
        };
    }
    Ok(res)
}

} // verus!
