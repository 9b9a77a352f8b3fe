//! Molecule generation: from a task description to a dependency graph.
//!
//! A formula describes work either as named steps with symbolic "needs"
//! references, or as sequential legs.  The generator turns it into a list of
//! beads with index-based dependency edges — resolving each "needs" id
//! against the step ids and silently dropping references that name no step —
//! and annotates the molecule with its execution order and a cycle flag.
//! The generator itself never fails: a cyclic description comes back with
//! `has_cycle` set and the sortable prefix as its order.

use vstd::prelude::*;
use crate::resolve::{str_views, resolve_refs, resolve_refs_exec, lemma_resolve_contains};
use crate::topo::{topological_order, topo_order_spec, views_of};

verus! {

/// The kind of work a formula describes.
#[derive(Debug, Clone, Copy, PartialEq, Eq)]
pub enum FormulaType {
    Convoy,
    Workflow,
    Expansion,
    Aspect,
}

/// A named step of a workflow, with symbolic predecessor references.
#[derive(Debug, Clone)]
pub struct Step {
    pub id: String,
    pub title: String,
    pub description: String,
    pub needs: Vec<String>,
    pub duration: Option<u32>,
    pub requires: Vec<String>,
}

/// One stage of a convoy; stages run strictly one after another.
#[derive(Debug, Clone)]
pub struct Leg {
    pub id: String,
    pub title: String,
    pub description: String,
}

/// A task description: named steps, sequential legs, or (unusually) both.
#[derive(Debug, Clone)]
pub struct Formula {
    pub name: String,
    pub description: String,
    pub formula_type: FormulaType,
    pub version: u32,
    pub steps: Vec<Step>,
    pub legs: Vec<Leg>,
}

/// A generated work item with index-based dependencies.
#[derive(Debug, Clone)]
pub struct MoleculeBead {
    pub title: String,
    pub description: String,
    pub labels: Vec<String>,
    pub depends_on: Vec<usize>,
    pub duration: Option<u32>,
    pub requires: Vec<String>,
}

/// A generated dependency graph: beads, execution order, and cycle flag.
#[derive(Debug, Clone)]
pub struct Molecule {
    pub formula_name: String,
    pub formula_type: String,
    pub beads: Vec<MoleculeBead>,
    pub has_cycle: bool,
    pub execution_order: Vec<usize>,
}

/// The tag string of a formula type.
pub open spec fn type_tag(t: FormulaType) -> Seq<char> {
    match t {
        FormulaType::Convoy => "convoy"@,
        FormulaType::Workflow => "workflow"@,
        FormulaType::Expansion => "expansion"@,
        FormulaType::Aspect => "aspect"@,
    }
}

/// The ids of the steps, as character sequences.
pub open spec fn step_ids(f: Formula) -> Seq<Seq<char>> {
    f.steps@.map_values(|s: Step| s.id@)
}

/// The dependency indices of step `i`: its "needs" resolved against the
/// step ids, dangling references dropped.
pub open spec fn step_deps(f: Formula, i: int) -> Seq<usize> {
    resolve_refs(step_ids(f), str_views(f.steps@[i].needs@))
}

/// The dependency lists of every generated bead: resolved "needs" for step
/// beads; for leg beads, the previous leg's enumeration index (leg zero has
/// none).
pub open spec fn mol_deps(f: Formula) -> Seq<Seq<usize>> {
    Seq::new(
        (f.steps@.len() + f.legs@.len()) as nat,
        |i: int|
            if i < f.steps@.len() {
                step_deps(f, i)
            } else if i > f.steps@.len() {
                seq![(i - f.steps@.len() - 1) as usize]
            } else {
                Seq::empty()
            },
    )
}

/// The dependency lists carried by a bead list.
pub open spec fn bead_deps(bs: Seq<MoleculeBead>) -> Seq<Seq<usize>> {
    bs.map_values(|b: MoleculeBead| b.depends_on@)
}

/// A fresh copy of an index list.
fn copy_indices(v: &Vec<usize>) -> (r: Vec<usize>)
    ensures
        r@ == v@,
{
    let mut out: Vec<usize> = Vec::new();
    let mut i: usize = 0;
    while i < v.len()
        invariant
            i <= v@.len(),
            out@ == v@.take(i as int),
        decreases v@.len() - i,
    {
        out.push(v[i]);
        proof {
            assert(v@.take(i + 1 as int) =~= v@.take(i as int).push(v@[i as int]));
        }
        i = i + 1;
    }
    proof {
        assert(v@.take(v@.len() as int) =~= v@);
    }
    out
}

/// A fresh copy of a string list.
fn copy_strings(v: &Vec<String>) -> (r: Vec<String>)
    ensures
        r@ == v@,
{
    let mut out: Vec<String> = Vec::new();
    let mut i: usize = 0;
    while i < v.len()
        invariant
            i <= v@.len(),
            out@ == v@.take(i as int),
        decreases v@.len() - i,
    {
        out.push(v[i].clone());
        proof {
            assert(v@.take(i + 1 as int) =~= v@.take(i as int).push(v@[i as int]));
        }
        i = i + 1;
    }
    proof {
        assert(v@.take(v@.len() as int) =~= v@);
    }
    out
}

/// The tag string of a formula type, as an owned string.
fn formula_type_string(t: &FormulaType) -> (r: String)
    ensures
        r@ == type_tag(*t),
{
    match t {
        FormulaType::Convoy => "convoy".to_owned(),
        FormulaType::Workflow => "workflow".to_owned(),
        FormulaType::Expansion => "expansion".to_owned(),
        FormulaType::Aspect => "aspect".to_owned(),
    }
}

/// Order the beads by their `depends_on` edges: Kahn's algorithm, FIFO with
/// ties broken by ascending index.
///
/// Never fails: on a cycle the flag is set and the order holds exactly the
/// sortable prefix.  The contract pins the order to `topo_order_spec` and
/// states the laws: listed dependencies come earlier in the order, no index
/// repeats, and a self-referential or mutual dependency always sets the
/// flag and keeps the order short of the bead count.
pub fn topological_sort(beads: &Vec<MoleculeBead>) -> (r: (Vec<usize>, bool))
    ensures
        r.0@ == topo_order_spec(bead_deps(beads@)),
        r.1 == (r.0@.len() != beads@.len()),
        r.0@.no_duplicates(),
        r.0@.len() <= beads@.len(),
        forall|k: int| 0 <= k < r.0@.len() ==> (r.0@[k] as int) < beads@.len(),
        forall|k: int, x: usize|
            0 <= k < r.0@.len() && #[trigger] beads@[r.0@[k] as int].depends_on@.contains(x)
                ==> r.0@.take(k).contains(x),
        forall|i: int, j: int|
            0 <= i < beads@.len() && 0 <= j < beads@.len()
                && #[trigger] beads@[i].depends_on@.contains(j as usize)
                && #[trigger] beads@[j].depends_on@.contains(i as usize)
                ==> r.0@.len() < beads@.len(),
        forall|i: int|
            0 <= i < beads@.len() && #[trigger] beads@[i].depends_on@.no_duplicates()
                && beads@[i].depends_on@.to_set().subset_of(r.0@.to_set())
                ==> r.0@.contains(i as usize),
{
    let mut deps: Vec<Vec<usize>> = Vec::new();
    let mut i: usize = 0;
    while i < beads.len()
        invariant
            i <= beads@.len(),
            deps@.len() == i,
            forall|k: int| 0 <= k < i ==> #[trigger] deps@[k]@ == beads@[k].depends_on@,
        decreases beads@.len() - i,
    {
        let copied = copy_indices(&beads[i].depends_on);
        deps.push(copied);
        i = i + 1;
    }
    proof {
        assert(views_of(deps@) =~= bead_deps(beads@));
    }
    let r = topological_order(&deps);
    proof {
        let dv = views_of(deps@);
        assert forall|k: int, x: usize|
            0 <= k < r.0@.len() && #[trigger] beads@[r.0@[k] as int].depends_on@.contains(x)
                implies r.0@.take(k).contains(x) by {
            assert(dv[r.0@[k] as int] == bead_deps(beads@)[r.0@[k] as int]);
            assert(dv[r.0@[k] as int].contains(x));
        };
        assert forall|i0: int, j0: int|
            0 <= i0 < beads@.len() && 0 <= j0 < beads@.len()
                && #[trigger] beads@[i0].depends_on@.contains(j0 as usize)
                && #[trigger] beads@[j0].depends_on@.contains(i0 as usize)
                implies r.0@.len() < beads@.len() by {
            assert(dv[i0] == bead_deps(beads@)[i0]);
            assert(dv[j0] == bead_deps(beads@)[j0]);
            assert(dv[i0].contains(j0 as usize));
            assert(dv[j0].contains(i0 as usize));
        };
        assert forall|i0: int|
            0 <= i0 < beads@.len() && #[trigger] beads@[i0].depends_on@.no_duplicates()
                && beads@[i0].depends_on@.to_set().subset_of(r.0@.to_set())
                implies r.0@.contains(i0 as usize) by {
            assert(dv[i0] == bead_deps(beads@)[i0]);
            assert(dv[i0].no_duplicates());
            assert(dv[i0].to_set().subset_of(r.0@.to_set()));
        };
    }
    r
}

/// Generate a molecule from a formula.
///
/// Step beads come first, in declaration order, each with its resolved
/// "needs" (dangling references silently dropped; with duplicate step ids
/// the last occurrence wins); leg beads follow, each depending on the
/// previous leg's enumeration index.  The molecule carries the execution
/// order and the cycle flag of the strict FIFO topological sort; generation
/// itself never fails.  The contract also states the builder's laws: every
/// listed dependency of an ordered bead comes earlier in the order, and a
/// mutual (or self-referential) "needs" pair between steps with
/// duplicate-free ids always sets `has_cycle` with a short order.
pub fn generate_molecule_internal(formula: &Formula) -> (m: Molecule)
    ensures
        m.formula_name@ == formula.name@,
        m.formula_type@ == type_tag(formula.formula_type),
        m.beads@.len() == formula.steps@.len() + formula.legs@.len(),
        bead_deps(m.beads@) == mol_deps(*formula),
        forall|i: int|
            #![trigger m.beads@[i]]
            0 <= i < formula.steps@.len() ==> m.beads@[i].title@ == formula.steps@[i].title@
                && m.beads@[i].description@ == formula.steps@[i].description@
                && m.beads@[i].depends_on@ == step_deps(*formula, i) && m.beads@[i].duration
                == formula.steps@[i].duration && m.beads@[i].requires@
                == formula.steps@[i].requires@ && m.beads@[i].labels@.len() == 2
                && m.beads@[i].labels@[0]@ == "molecule"@ && m.beads@[i].labels@[1]@
                == formula.name@,
        forall|a: int|
            #![trigger m.beads@[a]]
            formula.steps@.len() <= a < m.beads@.len() ==> m.beads@[a].title@
                == formula.legs@[a - formula.steps@.len()].title@ && m.beads@[a].description@
                == formula.legs@[a - formula.steps@.len()].description@ && m.beads@[a].duration
                is None && m.beads@[a].requires@.len() == 0 && m.beads@[a].labels@.len() == 3
                && m.beads@[a].labels@[0]@ == "molecule"@ && m.beads@[a].labels@[1]@ == "convoy"@
                && m.beads@[a].labels@[2]@ == formula.name@ && m.beads@[a].depends_on@ == (
            if a > formula.steps@.len() {
                seq![(a - formula.steps@.len() - 1) as usize]
            } else {
                Seq::<usize>::empty()
            }),
        m.execution_order@ == topo_order_spec(mol_deps(*formula)),
        m.has_cycle == (m.execution_order@.len() != m.beads@.len()),
        m.execution_order@.no_duplicates(),
        m.execution_order@.len() <= m.beads@.len(),
        forall|k: int, x: usize|
            0 <= k < m.execution_order@.len()
                && #[trigger] m.beads@[m.execution_order@[k] as int].depends_on@.contains(x)
                ==> m.execution_order@.take(k).contains(x),
        step_ids(*formula).no_duplicates() ==> forall|i: int, j: int|
            0 <= i < formula.steps@.len() && 0 <= j < formula.steps@.len()
                && #[trigger] str_views(formula.steps@[i].needs@).contains(step_ids(*formula)[j])
                && #[trigger] str_views(formula.steps@[j].needs@).contains(step_ids(*formula)[i])
                ==> m.has_cycle && m.execution_order@.len() < m.beads@.len(),
{
    let ghost f = *formula;
    let n_steps = formula.steps.len();
    let mut sids: Vec<String> = Vec::new();
    let mut i: usize = 0;
    while i < n_steps
        invariant
            i <= f.steps@.len(),
            n_steps == f.steps@.len(),
            f == *formula,
            sids@.len() == i,
            forall|k: int| 0 <= k < i ==> #[trigger] sids@[k]@ == f.steps@[k].id@,
        decreases n_steps - i,
    {
        sids.push(formula.steps[i].id.clone());
        i = i + 1;
    }
    proof {
        assert(str_views(sids@) =~= step_ids(f));
    }

    let mut beads: Vec<MoleculeBead> = Vec::new();
    let mut i: usize = 0;
    while i < n_steps
        invariant
            i <= f.steps@.len(),
            n_steps == f.steps@.len(),
            f == *formula,
            str_views(sids@) == step_ids(f),
            sids@.len() == n_steps,
            beads@.len() == i,
            forall|k: int|
                #![trigger beads@[k]]
                0 <= k < i ==> beads@[k].title@ == f.steps@[k].title@ && beads@[k].description@
                    == f.steps@[k].description@ && beads@[k].depends_on@ == step_deps(f, k)
                    && beads@[k].duration == f.steps@[k].duration && beads@[k].requires@
                    == f.steps@[k].requires@ && beads@[k].labels@.len() == 2
                    && beads@[k].labels@[0]@ == "molecule"@ && beads@[k].labels@[1]@ == f.name@,
        decreases n_steps - i,
    {
        let ghost bpre = beads@;
        let mut labels: Vec<String> = Vec::new();
        labels.push("molecule".to_owned());
        labels.push(formula.name.clone());
        let resolved = resolve_refs_exec(&sids, &formula.steps[i].needs);
        let reqs = copy_strings(&formula.steps[i].requires);
        let nb = MoleculeBead {
            title: formula.steps[i].title.clone(),
            description: formula.steps[i].description.clone(),
            labels,
            depends_on: resolved,
            duration: formula.steps[i].duration,
            requires: reqs,
        };
        let ghost nbg = nb;
        beads.push(nb);
        proof {
            assert(beads@ == bpre.push(nbg));
            assert(nbg.depends_on@ == step_deps(f, i as int));
            assert forall|k: int| #![trigger beads@[k]] 0 <= k < i + 1 implies beads@[k].title@
                == f.steps@[k].title@ && beads@[k].description@ == f.steps@[k].description@
                && beads@[k].depends_on@ == step_deps(f, k) && beads@[k].duration
                == f.steps@[k].duration && beads@[k].requires@ == f.steps@[k].requires@
                && beads@[k].labels@.len() == 2 && beads@[k].labels@[0]@ == "molecule"@
                && beads@[k].labels@[1]@ == f.name@ by {
                if k < i {
                    assert(beads@[k] == bpre[k]);
                } else {
                    assert(beads@[k] == nbg);
                }
            };
        }
        i = i + 1;
    }

    let n_legs = formula.legs.len();
    let mut i: usize = 0;
    while i < n_legs
        invariant
            i <= f.legs@.len(),
            n_legs == f.legs@.len(),
            n_steps == f.steps@.len(),
            f == *formula,
            beads@.len() == n_steps + i,
            forall|k: int|
                #![trigger beads@[k]]
                0 <= k < n_steps ==> beads@[k].title@ == f.steps@[k].title@
                    && beads@[k].description@ == f.steps@[k].description@ && beads@[k].depends_on@
                    == step_deps(f, k) && beads@[k].duration == f.steps@[k].duration
                    && beads@[k].requires@ == f.steps@[k].requires@ && beads@[k].labels@.len() == 2
                    && beads@[k].labels@[0]@ == "molecule"@ && beads@[k].labels@[1]@ == f.name@,
            forall|a: int|
                #![trigger beads@[a]]
                n_steps <= a < beads@.len() ==> beads@[a].title@ == f.legs@[a - n_steps].title@
                    && beads@[a].description@ == f.legs@[a - n_steps].description@
                    && beads@[a].duration is None && beads@[a].requires@.len() == 0
                    && beads@[a].labels@.len() == 3 && beads@[a].labels@[0]@ == "molecule"@
                    && beads@[a].labels@[1]@ == "convoy"@ && beads@[a].labels@[2]@ == f.name@
                    && beads@[a].depends_on@ == (if a > n_steps {
                    seq![(a - n_steps - 1) as usize]
                } else {
                    Seq::<usize>::empty()
                }),
        decreases n_legs - i,
    {
        let ghost bpre = beads@;
        let mut labels: Vec<String> = Vec::new();
        labels.push("molecule".to_owned());
        labels.push("convoy".to_owned());
        labels.push(formula.name.clone());
        let mut depends_on: Vec<usize> = Vec::new();
        if i > 0 {
            depends_on.push(i - 1);
            proof {
                assert(depends_on@ =~= seq![(i - 1) as usize]);
            }
        }
        let nb = MoleculeBead {
            title: formula.legs[i].title.clone(),
            description: formula.legs[i].description.clone(),
            labels,
            depends_on,
            duration: None,
            requires: Vec::new(),
        };
        let ghost nbg = nb;
        beads.push(nb);
        proof {
            assert(beads@ == bpre.push(nbg));
            assert forall|k: int| #![trigger beads@[k]] 0 <= k < n_steps implies beads@[k].title@
                == f.steps@[k].title@ && beads@[k].description@ == f.steps@[k].description@
                && beads@[k].depends_on@ == step_deps(f, k) && beads@[k].duration
                == f.steps@[k].duration && beads@[k].requires@ == f.steps@[k].requires@
                && beads@[k].labels@.len() == 2 && beads@[k].labels@[0]@ == "molecule"@
                && beads@[k].labels@[1]@ == f.name@ by {
                assert(beads@[k] == bpre[k]);
            };
            assert forall|a: int| #![trigger beads@[a]] n_steps <= a < beads@.len()
                implies beads@[a].title@ == f.legs@[a - n_steps].title@ && beads@[a].description@
                == f.legs@[a - n_steps].description@ && beads@[a].duration is None
                && beads@[a].requires@.len()
                == 0 && beads@[a].labels@.len() == 3 && beads@[a].labels@[0]@ == "molecule"@
                && beads@[a].labels@[1]@ == "convoy"@ && beads@[a].labels@[2]@ == f.name@
                && beads@[a].depends_on@ == (if a > n_steps {
                seq![(a - n_steps - 1) as usize]
            } else {
                Seq::<usize>::empty()
            }) by {
                if a < n_steps + i {
                    assert(beads@[a] == bpre[a]);
                } else {
                    assert(beads@[a] == nbg);
                }
            };
        }
        i = i + 1;
    }

    proof {
        assert forall|k: int| 0 <= k < beads@.len() implies #[trigger] bead_deps(beads@)[k]
            == mol_deps(f)[k] by {
            assert(bead_deps(beads@)[k] == beads@[k].depends_on@);
        };
        assert(bead_deps(beads@) =~= mol_deps(f));
    }
    let sorted = topological_sort(&beads);
    proof {
        if step_ids(f).no_duplicates() {
            assert forall|i0: int, j0: int|
                0 <= i0 < f.steps@.len() && 0 <= j0 < f.steps@.len()
                    && #[trigger] str_views(f.steps@[i0].needs@).contains(step_ids(f)[j0])
                    && #[trigger] str_views(f.steps@[j0].needs@).contains(step_ids(f)[i0])
                    implies sorted.0@.len() < beads@.len() by {
                lemma_resolve_contains(step_ids(f), str_views(f.steps@[i0].needs@), j0);
                lemma_resolve_contains(step_ids(f), str_views(f.steps@[j0].needs@), i0);
                assert(beads@[i0].depends_on@.contains(j0 as usize));
                assert(beads@[j0].depends_on@.contains(i0 as usize));
            };
        }
    }
    Molecule {
        formula_name: formula.name.clone(),
        formula_type: formula_type_string(&formula.formula_type),
        beads,
        has_cycle: sorted.1,
        execution_order: sorted.0,
    }
}

} // verus!
