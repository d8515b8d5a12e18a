use table_problem::cache::{canonical_rotation, InsertionCache};
use table_problem::insertion::insert_into_best_table_position;
use table_problem::objective::ObjectiveValueCalculator;
use table_problem::problem::{Person, ProblemDescription, RelationWeight, TableDay};

fn no_history_problem(n_people: usize) -> ProblemDescription {
    ProblemDescription {
        people: (0..n_people)
            .map(|id| Person {
                id,
                visits: vec![],
            })
            .collect(),
        tables: vec![TableDay {
            id: 0,
            table_id: 0,
            day: 20000,
        }],
        people_relations: vec![
            RelationWeight {
                person_a: 0,
                person_b: 1,
                weight_millis: 2000,
            },
            RelationWeight {
                person_a: 1,
                person_b: 2,
                weight_millis: 5000,
            },
        ],
    }
}

#[test]
fn canonical_rotation_starts_at_minimum() {
    assert_eq!(canonical_rotation(&vec![3, 1, 2]), vec![1, 2, 3]);
    assert_eq!(canonical_rotation(&vec![1, 2, 3]), vec![1, 2, 3]);
    assert_eq!(canonical_rotation(&vec![2, 3, 1]), vec![1, 2, 3]);
    assert_eq!(canonical_rotation(&vec![5]), vec![5]);
    assert_eq!(canonical_rotation(&Vec::new()), Vec::<usize>::new());
}

#[test]
fn cached_value_equals_direct_computation() {
    let problem = no_history_problem(4);
    let calc = ObjectiveValueCalculator::new(&problem);
    let mut cache = InsertionCache::new(&calc);
    let group = vec![0, 1, 2];
    let direct = insert_into_best_table_position(&calc, 0, &group, 3).map(|(_, v)| v);
    let via_cache = cache.get_or_compute(&calc, 0, &group, 3);
    assert_eq!(via_cache, direct);
    // A second lookup hits the memoized entry and must agree again.
    assert_eq!(cache.get_or_compute(&calc, 0, &group, 3), direct);
}

#[test]
fn rotated_states_share_cache_value() {
    let problem = no_history_problem(4);
    let calc = ObjectiveValueCalculator::new(&problem);
    let mut cache = InsertionCache::new(&calc);
    let v1 = cache.get_or_compute(&calc, 0, &vec![0, 1, 2], 3);
    let v2 = cache.get_or_compute(&calc, 0, &vec![1, 2, 0], 3);
    let v3 = cache.get_or_compute(&calc, 0, &vec![2, 0, 1], 3);
    assert_eq!(v1, v2);
    assert_eq!(v1, v3);
    assert!(v1.is_some());
}

#[test]
fn full_table_yields_no_insertion() {
    let problem = no_history_problem(7);
    let calc = ObjectiveValueCalculator::new(&problem);
    let mut cache = InsertionCache::new(&calc);
    let full = vec![0, 1, 2, 3, 4, 5];
    assert_eq!(cache.get_or_compute(&calc, 0, &full, 6), None);
    assert!(insert_into_best_table_position(&calc, 0, &full, 6).is_none());
}

#[test]
fn empty_table_insertion_is_absolute_value() {
    let problem = no_history_problem(2);
    let calc = ObjectiveValueCalculator::new(&problem);
    let mut cache = InsertionCache::new(&calc);
    // Seating person 0 alone at an empty table scores the absolute table
    // value: 1000 + 500 + 500 millis with no history.
    assert_eq!(cache.get_or_compute(&calc, 0, &Vec::new(), 0), Some(2000));
}

#[test]
fn best_insertion_picks_best_adjacency() {
    // With [1, 2] seated and strong relation (1, 2), inserting 0 must not
    // split that pair more cheaply than necessary: the chosen position's
    // marginal value equals the best over all insertion indices.
    let problem = no_history_problem(3);
    let calc = ObjectiveValueCalculator::new(&problem);
    let group = vec![1, 2];
    let before = calc.table_value(0, &group);
    let (new_group, value) = insert_into_best_table_position(&calc, 0, &group, 0).unwrap();
    assert_eq!(calc.table_value(0, &new_group) - before, value);
    let mut best = i64::MIN;
    for idx in 0..group.len() {
        let mut candidate = group.clone();
        candidate.insert(idx, 0);
        let delta = calc.table_value(0, &candidate) - before;
        if delta > best {
            best = delta;
        }
    }
    assert_eq!(value, best);
}
