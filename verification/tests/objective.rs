use table_problem::objective::ObjectiveValueCalculator;
use table_problem::problem::{
    Person, PersonVisit, ProblemDescription, RelationWeight, SlotAssignment, Solution, TableDay,
};

fn person(id: usize, visits: Vec<(usize, u64)>) -> Person {
    Person {
        id,
        visits: visits
            .into_iter()
            .map(|(table_id, day)| PersonVisit { table_id, day })
            .collect(),
    }
}

fn relation(a: usize, b: usize, weight_millis: i64) -> RelationWeight {
    RelationWeight {
        person_a: a,
        person_b: b,
        weight_millis,
    }
}

#[test]
fn empty_group_scores_zero() {
    let problem = ProblemDescription {
        people: vec![person(0, vec![])],
        tables: vec![TableDay {
            id: 0,
            table_id: 0,
            day: 20000,
        }],
        people_relations: vec![],
    };
    let calc = ObjectiveValueCalculator::new(&problem);
    assert_eq!(calc.table_value(0, &vec![]), 0);
}

#[test]
fn single_person_has_no_relation_term() {
    let problem = ProblemDescription {
        people: vec![person(0, vec![]), person(1, vec![])],
        tables: vec![TableDay {
            id: 0,
            table_id: 0,
            day: 20000,
        }],
        people_relations: vec![relation(0, 1, 2000)],
    };
    let calc = ObjectiveValueCalculator::new(&problem);
    // Never visited: recency 1000, new table 500, new weekday 500.
    assert_eq!(calc.table_value(0, &vec![0]), 2000);
}

#[test]
fn pair_scores_relation_from_both_seats() {
    // Three people, one relation of 2.0 (2000 millis) between person 0 and
    // person 1, one slot, no visit history. Seating [0, 1] counts the
    // relation once per person (0 toward 1 and 1 toward 0), plus the
    // never-visited terms of 1000 + 500 + 500 millis per person.
    let problem = ProblemDescription {
        people: vec![person(0, vec![]), person(1, vec![]), person(2, vec![])],
        tables: vec![TableDay {
            id: 0,
            table_id: 0,
            day: 20000,
        }],
        people_relations: vec![relation(0, 1, 2000)],
    };
    let calc = ObjectiveValueCalculator::new(&problem);
    assert_eq!(calc.table_value(0, &vec![0, 1]), 2 * 2000 + 2 * 2000);
}

#[test]
fn recency_ramp_is_exact() {
    // Visit 1 day before the slot, at the slot's own physical table, on a
    // different weekday: recency (1 * 1000) / 15 - 1000 = -934, no table
    // bonus, +500 weekday bonus.
    let problem = ProblemDescription {
        people: vec![person(0, vec![(5, 19999)])],
        tables: vec![TableDay {
            id: 0,
            table_id: 5,
            day: 20000,
        }],
        people_relations: vec![],
    };
    let calc = ObjectiveValueCalculator::new(&problem);
    assert_eq!(calc.table_value(0, &vec![0]), -934 + 0 + 500);
}

#[test]
fn recency_clamps_at_gap_zero_and_thirty() {
    // Same-day visit: recency -1000; a 30-day-old visit: recency +1000.
    // Both visits went to the slot's table on the slot's weekday (20000 and
    // 19972 might differ, so pick multiples of 7 apart for the old visit).
    let problem = ProblemDescription {
        people: vec![person(0, vec![(5, 20000)]), person(1, vec![(5, 19965)])],
        tables: vec![TableDay {
            id: 0,
            table_id: 5,
            day: 20000,
        }],
        people_relations: vec![],
    };
    let calc = ObjectiveValueCalculator::new(&problem);
    // Person 0: gap 0 -> -1000; same table, same weekday: no bonuses.
    assert_eq!(calc.table_value(0, &vec![0]), -1000);
    // Person 1: gap 35 >= 30 -> +1000; 19965 = 20000 - 35, and 35 % 7 == 0,
    // so the weekday matches too.
    assert_eq!(calc.table_value(0, &vec![1]), 1000);
}

#[test]
fn table_value_is_rotation_invariant() {
    let problem = ProblemDescription {
        people: vec![person(0, vec![]), person(1, vec![]), person(2, vec![]), person(3, vec![])],
        tables: vec![TableDay {
            id: 0,
            table_id: 0,
            day: 20000,
        }],
        people_relations: vec![relation(0, 1, 2000), relation(1, 2, 3000), relation(0, 3, 700)],
    };
    let calc = ObjectiveValueCalculator::new(&problem);
    let base = calc.table_value(0, &vec![0, 1, 2, 3]);
    assert_eq!(calc.table_value(0, &vec![1, 2, 3, 0]), base);
    assert_eq!(calc.table_value(0, &vec![2, 3, 0, 1]), base);
    assert_eq!(calc.table_value(0, &vec![3, 0, 1, 2]), base);
}

#[test]
fn solution_value_sums_all_slots() {
    let problem = ProblemDescription {
        people: vec![person(0, vec![]), person(1, vec![])],
        tables: vec![
            TableDay {
                id: 10,
                table_id: 0,
                day: 20000,
            },
            TableDay {
                id: 11,
                table_id: 1,
                day: 20001,
            },
        ],
        people_relations: vec![],
    };
    let calc = ObjectiveValueCalculator::new(&problem);
    let solution = Solution {
        solution_per_table: vec![
            SlotAssignment {
                table_day_id: 10,
                people: vec![0],
            },
            SlotAssignment {
                table_day_id: 11,
                people: vec![1],
            },
        ],
    };
    let expected = calc.table_value(10, &vec![0]) + calc.table_value(11, &vec![1]);
    assert_eq!(calc.solution_value(&solution), expected);
    assert_eq!(calc.solution_value(&solution), 4000);
}
