use table_problem::algorithm::{improve_iteration, solve, solve_deterministic, SolverRng};
use table_problem::cache::InsertionCache;
use table_problem::objective::ObjectiveValueCalculator;
use table_problem::problem::{
    check_problem, Person, PersonVisit, ProblemDescription, RelationWeight, SlotAssignment,
    Solution, SolveError, TableDay,
};
use table_problem::validator::validate_solution;

fn people_without_history(n: usize) -> Vec<Person> {
    (0..n)
        .map(|id| Person {
            id,
            visits: vec![],
        })
        .collect()
}

fn tables(n: usize) -> Vec<TableDay> {
    (0..n)
        .map(|i| TableDay {
            id: i,
            table_id: i % 3,
            day: 20000 + (i as u64 % 7),
        })
        .collect()
}

fn sample_problem() -> ProblemDescription {
    let mut people = people_without_history(10);
    people[3].visits.push(PersonVisit {
        table_id: 0,
        day: 19990,
    });
    people[7].visits.push(PersonVisit {
        table_id: 1,
        day: 19980,
    });
    ProblemDescription {
        people,
        tables: tables(3),
        people_relations: vec![
            RelationWeight {
                person_a: 0,
                person_b: 1,
                weight_millis: 2000,
            },
            RelationWeight {
                person_a: 2,
                person_b: 9,
                weight_millis: 1500,
            },
            RelationWeight {
                person_a: 4,
                person_b: 5,
                weight_millis: -800,
            },
        ],
    }
}

fn solutions_equal(a: &Solution, b: &Solution) -> bool {
    if a.solution_per_table.len() != b.solution_per_table.len() {
        return false;
    }
    for i in 0..a.solution_per_table.len() {
        if a.solution_per_table[i].table_day_id != b.solution_per_table[i].table_day_id {
            return false;
        }
        if a.solution_per_table[i].people != b.solution_per_table[i].people {
            return false;
        }
    }
    true
}

#[test]
fn check_problem_accepts_well_formed_input() {
    assert!(check_problem(&sample_problem()));
}

#[test]
fn check_problem_rejects_duplicate_person_ids() {
    let mut p = sample_problem();
    p.people[1].id = 0;
    assert!(!check_problem(&p));
}

#[test]
fn check_problem_rejects_noncanonical_relation() {
    let mut p = sample_problem();
    p.people_relations.push(RelationWeight {
        person_a: 5,
        person_b: 5,
        weight_millis: 100,
    });
    assert!(!check_problem(&p));
}

#[test]
fn check_problem_rejects_duplicate_relation_pair() {
    let mut p = sample_problem();
    p.people_relations.push(RelationWeight {
        person_a: 0,
        person_b: 1,
        weight_millis: 900,
    });
    assert!(!check_problem(&p));
}

#[test]
fn check_problem_rejects_unknown_relation_target() {
    let mut p = sample_problem();
    p.people_relations.push(RelationWeight {
        person_a: 3,
        person_b: 99,
        weight_millis: 100,
    });
    assert!(!check_problem(&p));
}

#[test]
fn solve_returns_complete_valid_solution() {
    let problem = sample_problem();
    let results = solve(&problem, 500, 7).expect("instance is feasible");
    assert!(validate_solution(&problem, &results.solution));
    let seated: usize = results
        .solution
        .solution_per_table
        .iter()
        .map(|s| s.people.len())
        .sum();
    assert_eq!(seated, problem.people.len());
    assert!(results.no_of_iterations >= 1);
}

#[test]
fn infeasible_when_people_exceed_total_capacity() {
    // Every possible slot at capacity 6 and more people than fit: the solve
    // must fail with the infeasibility fault, not silently drop people.
    let problem = ProblemDescription {
        people: people_without_history(7),
        tables: tables(1),
        people_relations: vec![],
    };
    assert_eq!(
        solve(&problem, 100, 1).unwrap_err(),
        SolveError::Infeasible
    );
    assert_eq!(
        solve_deterministic(&problem, 1).unwrap_err(),
        SolveError::Infeasible
    );
}

#[test]
fn exactly_full_capacity_is_feasible() {
    let problem = ProblemDescription {
        people: people_without_history(6),
        tables: tables(1),
        people_relations: vec![],
    };
    let results = solve(&problem, 100, 3).expect("six people fit one table");
    assert!(validate_solution(&problem, &results.solution));
    assert_eq!(results.solution.solution_per_table[0].people.len(), 6);
}

#[test]
fn empty_problem_solves_trivially() {
    let problem = ProblemDescription {
        people: vec![],
        tables: tables(2),
        people_relations: vec![],
    };
    let results = solve(&problem, 100, 1).expect("nothing to seat");
    assert!(validate_solution(&problem, &results.solution));
}

#[test]
fn fixed_seed_gives_identical_runs() {
    let problem = sample_problem();
    let a = solve_deterministic(&problem, 42).expect("feasible");
    let b = solve_deterministic(&problem, 42).expect("feasible");
    assert!(solutions_equal(&a.solution, &b.solution));
    assert_eq!(a.no_of_iterations, b.no_of_iterations);
}

#[test]
fn accepted_values_never_decrease() {
    let problem = sample_problem();
    let calc = ObjectiveValueCalculator::new(&problem);
    let mut cache = InsertionCache::new(&calc);
    let mut rng = SolverRng::new(11);
    let mut sol = solve_deterministic(&problem, 11).expect("feasible").solution;
    let mut last = calc.solution_value(&sol);
    for _ in 0..25 {
        let accepted = improve_iteration(&calc, &mut cache, &mut rng, &mut sol);
        let now = calc.solution_value(&sol);
        assert!(now >= last);
        if accepted {
            assert!(now > last);
        } else {
            assert_eq!(now, last);
        }
        last = now;
        assert!(validate_solution(&problem, &sol));
    }
}

#[test]
fn seeded_generator_is_reproducible_and_bounded() {
    let mut a = SolverRng::new(99);
    let mut b = SolverRng::new(99);
    for _ in 0..100 {
        let x = a.below(17);
        let y = b.below(17);
        assert_eq!(x, y);
        assert!(x < 17);
    }
    let mut c = SolverRng::new(100);
    let mut differs = false;
    for _ in 0..100 {
        if a.next_u64() != c.next_u64() {
            differs = true;
        }
    }
    assert!(differs);
}

#[test]
fn validator_rejects_structural_faults() {
    let problem = ProblemDescription {
        people: people_without_history(4),
        tables: tables(2),
        people_relations: vec![],
    };
    let good = Solution {
        solution_per_table: vec![
            SlotAssignment {
                table_day_id: 0,
                people: vec![0, 1, 2],
            },
            SlotAssignment {
                table_day_id: 1,
                people: vec![3],
            },
        ],
    };
    assert!(validate_solution(&problem, &good));

    // A person seated twice.
    let duplicated = Solution {
        solution_per_table: vec![
            SlotAssignment {
                table_day_id: 0,
                people: vec![0, 1, 2],
            },
            SlotAssignment {
                table_day_id: 1,
                people: vec![3, 0],
            },
        ],
    };
    assert!(!validate_solution(&problem, &duplicated));

    // A person missing.
    let missing = Solution {
        solution_per_table: vec![
            SlotAssignment {
                table_day_id: 0,
                people: vec![0, 1, 2],
            },
            SlotAssignment {
                table_day_id: 1,
                people: vec![],
            },
        ],
    };
    assert!(!validate_solution(&problem, &missing));

    // An unknown person.
    let unknown = Solution {
        solution_per_table: vec![
            SlotAssignment {
                table_day_id: 0,
                people: vec![0, 1, 2],
            },
            SlotAssignment {
                table_day_id: 1,
                people: vec![9],
            },
        ],
    };
    assert!(!validate_solution(&problem, &unknown));

    // A slot over capacity (7 people need a bigger problem to stay known).
    let problem7 = ProblemDescription {
        people: people_without_history(7),
        tables: tables(2),
        people_relations: vec![],
    };
    let crowded = Solution {
        solution_per_table: vec![
            SlotAssignment {
                table_day_id: 0,
                people: vec![0, 1, 2, 3, 4, 5, 6],
            },
            SlotAssignment {
                table_day_id: 1,
                people: vec![],
            },
        ],
    };
    assert!(!validate_solution(&problem7, &crowded));

    // Slot ids that do not match the problem's tables.
    let wrong_slots = Solution {
        solution_per_table: vec![
            SlotAssignment {
                table_day_id: 5,
                people: vec![0, 1, 2],
            },
            SlotAssignment {
                table_day_id: 1,
                people: vec![3],
            },
        ],
    };
    assert!(!validate_solution(&problem, &wrong_slots));
}
