//! Resolution of symbolic id references to node indices.
//!
//! Nodes cross-reference each other by string ids.  Resolution turns a list
//! of referenced ids into a list of node indices, silently dropping every
//! reference that names no node: a dangling reference simply contributes
//! nothing.  When an id occurs more than once, the last occurrence wins, as
//! in a lookup table filled front to back.

use vstd::prelude::*;

verus! {

/// The character sequences of a list of strings.
pub open spec fn str_views(ids: Seq<String>) -> Seq<Seq<char>> {
    ids.map_values(|s: String| s@)
}

/// Index of the last occurrence of `id` in `ids`, or -1 when absent.
pub open spec fn last_index_of(ids: Seq<Seq<char>>, id: Seq<char>) -> int
    decreases ids.len(),
{
    if ids.len() == 0 {
        -1
    } else if ids.last() == id {
        ids.len() - 1
    } else {
        last_index_of(ids.drop_last(), id)
    }
}

/// The indices the references in `refs` resolve to, in reference order,
/// with dangling references dropped.
pub open spec fn resolve_refs(ids: Seq<Seq<char>>, refs: Seq<Seq<char>>) -> Seq<usize>
    decreases refs.len(),
{
    if refs.len() == 0 {
        Seq::empty()
    } else {
        let prefix = resolve_refs(ids, refs.drop_last());
        let t = last_index_of(ids, refs.last());
        if t >= 0 {
            prefix.push(t as usize)
        } else {
            prefix
        }
    }
}

pub proof fn lemma_last_index_range(ids: Seq<Seq<char>>, id: Seq<char>)
    ensures
        -1 <= last_index_of(ids, id) < ids.len(),
        last_index_of(ids, id) >= 0 ==> ids[last_index_of(ids, id)] == id,
    decreases ids.len(),
{
    if ids.len() > 0 && ids.last() != id {
        lemma_last_index_range(ids.drop_last(), id);
    }
}

/// With duplicate-free ids, the id of node `j` resolves back to `j`.
pub proof fn lemma_last_index_unique(ids: Seq<Seq<char>>, j: int)
    requires
        ids.no_duplicates(),
        0 <= j < ids.len(),
    ensures
        last_index_of(ids, ids[j]) == j,
    decreases ids.len(),
{
    if j == ids.len() - 1 {
    } else {
        assert(ids.last() != ids[j]);
        assert(ids.drop_last().no_duplicates());
        assert(ids.drop_last()[j] == ids[j]);
        lemma_last_index_unique(ids.drop_last(), j);
    }
}

/// With duplicate-free ids, a reference list naming node `j` resolves to a
/// list holding index `j`.
pub proof fn lemma_resolve_contains(ids: Seq<Seq<char>>, refs: Seq<Seq<char>>, j: int)
    requires
        ids.no_duplicates(),
        0 <= j < ids.len(),
        refs.contains(ids[j]),
    ensures
        resolve_refs(ids, refs).contains(j as usize),
    decreases refs.len(),
{
    lemma_last_index_unique(ids, j);
    let prefix = resolve_refs(ids, refs.drop_last());
    if refs.last() == ids[j] {
        assert(resolve_refs(ids, refs) == prefix.push(j as usize));
        assert(resolve_refs(ids, refs).last() == j as usize);
    } else {
        let k = choose|k: int| 0 <= k < refs.len() && refs[k] == ids[j];
        assert(refs.drop_last()[k] == ids[j]);
        assert(refs.drop_last().contains(ids[j]));
        lemma_resolve_contains(ids, refs.drop_last(), j);
        let m = choose|m: int| 0 <= m < prefix.len() && prefix[m] == j as usize;
        let t = last_index_of(ids, refs.last());
        if t >= 0 {
            assert(resolve_refs(ids, refs)[m] == j as usize);
        }
    }
}

/// Index of the last node whose id equals `id`, if any.
pub fn find_last_index(ids: &Vec<String>, id: &String) -> (r: Option<usize>)
    ensures
        r matches Some(t) ==> last_index_of(str_views(ids@), id@) == t as int,
        r is None ==> last_index_of(str_views(ids@), id@) == -1,
{
    let ghost iv = str_views(ids@);
    let mut best: Option<usize> = None;
    let mut k: usize = 0;
    while k < ids.len()
        invariant
            k <= ids@.len(),
            iv == str_views(ids@),
            best matches Some(t) ==> last_index_of(iv.take(k as int), id@) == t as int,
            best is None ==> last_index_of(iv.take(k as int), id@) == -1,
        decreases ids@.len() - k,
    {
        proof {
            assert(iv.take(k + 1 as int).drop_last() =~= iv.take(k as int));
            assert(iv.take(k + 1 as int).last() == ids@[k as int]@);
        }
        if ids[k] == *id {
            best = Some(k);
        } else {
            assert(ids@[k as int]@ != id@);
        }
        k = k + 1;
    }
    proof {
        assert(iv.take(ids@.len() as int) =~= iv);
    }
    best
}

/// Resolve every reference in `refs` against `ids`, dropping dangling ones.
pub fn resolve_refs_exec(ids: &Vec<String>, refs: &Vec<String>) -> (r: Vec<usize>)
    ensures
        r@ == resolve_refs(str_views(ids@), str_views(refs@)),
        forall|k: int| 0 <= k < r@.len() ==> (r@[k] as int) < ids@.len(),
{
    let ghost iv = str_views(ids@);
    let ghost rv = str_views(refs@);
    let mut out: Vec<usize> = Vec::new();
    let mut k: usize = 0;
    while k < refs.len()
        invariant
            k <= refs@.len(),
            iv == str_views(ids@),
            rv == str_views(refs@),
            out@ == resolve_refs(iv, rv.take(k as int)),
            forall|m: int| 0 <= m < out@.len() ==> (out@[m] as int) < ids@.len(),
        decreases refs@.len() - k,
    {
        proof {
            assert(rv.take(k + 1 as int).drop_last() =~= rv.take(k as int));
            assert(rv.take(k + 1 as int).last() == refs@[k as int]@);
            lemma_last_index_range(iv, refs@[k as int]@);
        }
        match find_last_index(ids, &refs[k]) {
            Some(t) => {
                out.push(t);
            },
            None => {},
        }
        k = k + 1;
    }
    proof {
        assert(rv.take(refs@.len() as int) =~= rv);
    }
    out
}

} // verus!
