use beadgraph::molecule::{
    generate_molecule_internal, topological_sort, Formula, FormulaType, Leg, MoleculeBead, Step,
};

fn step(id: &str, title: &str, description: &str, needs: Vec<&str>, duration: Option<u32>) -> Step {
    Step {
        id: id.to_string(),
        title: title.to_string(),
        description: description.to_string(),
        needs: needs.into_iter().map(|s| s.to_string()).collect(),
        duration,
        requires: vec![],
    }
}

fn bead(title: &str, depends_on: Vec<usize>) -> MoleculeBead {
    MoleculeBead {
        title: title.to_string(),
        description: "".to_string(),
        labels: vec![],
        depends_on,
        duration: None,
        requires: vec![],
    }
}

fn create_test_formula() -> Formula {
    Formula {
        name: "test-workflow".to_string(),
        description: "Test workflow".to_string(),
        formula_type: FormulaType::Workflow,
        version: 1,
        steps: vec![
            step("analyze", "Analyze", "Analyze the code", vec![], Some(30)),
            step("review", "Review", "Review changes", vec!["analyze"], Some(60)),
            step("approve", "Approve", "Approve changes", vec!["review"], Some(15)),
        ],
        legs: vec![],
    }
}

#[test]
fn test_generate_molecule() {
    let cooked = create_test_formula();
    let molecule = generate_molecule_internal(&cooked);

    assert_eq!(molecule.formula_name, "test-workflow");
    assert_eq!(molecule.formula_type, "workflow");
    assert_eq!(molecule.beads.len(), 3);
    assert!(!molecule.has_cycle);
    assert_eq!(molecule.execution_order.len(), 3);
}

#[test]
fn test_topological_sort() {
    let beads = vec![bead("A", vec![]), bead("B", vec![0]), bead("C", vec![0, 1])];

    let (order, has_cycle) = topological_sort(&beads);
    assert!(!has_cycle);
    assert_eq!(order.len(), 3);
    // A must come before B and C
    assert!(order.iter().position(|&x| x == 0) < order.iter().position(|&x| x == 1));
    assert!(order.iter().position(|&x| x == 1) < order.iter().position(|&x| x == 2));
}

#[test]
fn test_needs_chaining_order() {
    // three sequential steps whose needs already respect declaration order
    let molecule = generate_molecule_internal(&create_test_formula());
    assert!(!molecule.has_cycle);
    assert_eq!(molecule.execution_order, vec![0, 1, 2]);
    assert_eq!(molecule.beads[0].depends_on, Vec::<usize>::new());
    assert_eq!(molecule.beads[1].depends_on, vec![0]);
    assert_eq!(molecule.beads[2].depends_on, vec![1]);
    assert_eq!(molecule.beads[1].duration, Some(60));
    assert_eq!(molecule.beads[0].labels, vec!["molecule", "test-workflow"]);
}

#[test]
fn test_builder_mutual_dependency() {
    // a needs b and b needs a: flagged, and nothing is sortable
    let formula = Formula {
        name: "knot".to_string(),
        description: "".to_string(),
        formula_type: FormulaType::Workflow,
        version: 1,
        steps: vec![
            step("a", "A", "", vec!["b"], None),
            step("b", "B", "", vec!["a"], None),
        ],
        legs: vec![],
    };
    let molecule = generate_molecule_internal(&formula);
    assert!(molecule.has_cycle);
    assert_eq!(molecule.execution_order.len(), 0);
}

#[test]
fn test_builder_self_dependency() {
    let formula = Formula {
        name: "loop".to_string(),
        description: "".to_string(),
        formula_type: FormulaType::Workflow,
        version: 1,
        steps: vec![step("a", "A", "", vec!["a"], None)],
        legs: vec![],
    };
    let molecule = generate_molecule_internal(&formula);
    assert!(molecule.has_cycle);
    assert_eq!(molecule.execution_order.len(), 0);
}

#[test]
fn test_dangling_needs_dropped() {
    // a reference to a non-existent step is silently omitted, not an error
    let formula = Formula {
        name: "lenient".to_string(),
        description: "".to_string(),
        formula_type: FormulaType::Workflow,
        version: 1,
        steps: vec![step("a", "A", "", vec!["ghost"], None)],
        legs: vec![],
    };
    let molecule = generate_molecule_internal(&formula);
    assert!(!molecule.has_cycle);
    assert_eq!(molecule.beads[0].depends_on, Vec::<usize>::new());
    assert_eq!(molecule.execution_order, vec![0]);
}

#[test]
fn test_duplicate_step_ids_last_wins() {
    // with two steps of the same id, a reference resolves to the later one
    let formula = Formula {
        name: "dup".to_string(),
        description: "".to_string(),
        formula_type: FormulaType::Workflow,
        version: 1,
        steps: vec![
            step("x", "X1", "", vec![], None),
            step("x", "X2", "", vec![], None),
            step("y", "Y", "", vec!["x"], None),
        ],
        legs: vec![],
    };
    let molecule = generate_molecule_internal(&formula);
    assert_eq!(molecule.beads[2].depends_on, vec![1]);
}

#[test]
fn test_legs_sequential() {
    let formula = Formula {
        name: "feature-convoy".to_string(),
        description: "".to_string(),
        formula_type: FormulaType::Convoy,
        version: 1,
        steps: vec![],
        legs: vec![
            Leg {
                id: "research".to_string(),
                title: "Research".to_string(),
                description: "".to_string(),
            },
            Leg {
                id: "implement".to_string(),
                title: "Implement".to_string(),
                description: "".to_string(),
            },
            Leg {
                id: "verify".to_string(),
                title: "Verify".to_string(),
                description: "".to_string(),
            },
        ],
    };
    let molecule = generate_molecule_internal(&formula);
    assert_eq!(molecule.formula_type, "convoy");
    assert_eq!(molecule.beads.len(), 3);
    assert_eq!(molecule.beads[0].depends_on, Vec::<usize>::new());
    assert_eq!(molecule.beads[1].depends_on, vec![0]);
    assert_eq!(molecule.beads[2].depends_on, vec![1]);
    assert!(!molecule.has_cycle);
    assert_eq!(molecule.execution_order, vec![0, 1, 2]);
    assert_eq!(
        molecule.beads[1].labels,
        vec!["molecule", "convoy", "feature-convoy"]
    );
    assert_eq!(molecule.beads[1].duration, None);
}
