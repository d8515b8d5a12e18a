//! Post-hoc structural validation of a solution against its problem: slot
//! list equality, full person coverage with no duplicate seating, and the
//! per-slot capacity limit. Reports pass/fail, never mutates.

use vstd::prelude::*;

use crate::problem::{
    all_distinct, capacity_respected, contains_person_id, covers_people,
    lemma_person_ids_no_duplicates, person_id_set, person_ids, problem_wf, seated_ids, slots_match,
    solution_complete, ProblemDescription, Solution, MAX_PEOPLE_FOR_TABLE,
};

verus! {

/// A subset of equal (finite) cardinality is the whole set.
proof fn lemma_subset_same_len_equal(s1: Set<usize>, s2: Set<usize>)
    requires
        s1.subset_of(s2),
        s2.finite(),
        s1.len() == s2.len(),
    ensures
        s1 == s2,
{
    if exists|x: usize| s2.contains(x) && !s1.contains(x) {
        let x = choose|x: usize| s2.contains(x) && !s1.contains(x);
        assert(s1.subset_of(s2.remove(x)));
        vstd::set_lib::lemma_len_subset(s1, s2.remove(x));
        assert(s2.remove(x).len() == s2.len() - 1);
        assert(false);
    }
    assert(s1 =~= s2);
}

/// Collects every seated person id of the solution, slot by slot.
fn collect_seated(solution: &Solution) -> (r: Vec<usize>)
    ensures
        r@ == seated_ids(solution@),
{
    broadcast use vstd::prelude::Seq::lemma_flatten_push;

    let mut seated: Vec<usize> = Vec::new();
    let mut k: usize = 0;
    while k < solution.solution_per_table.len()
        invariant
            0 <= k <= solution.solution_per_table@.len(),
            seated@ == seated_ids(solution@.take(k as int)),
        decreases solution.solution_per_table@.len() - k,
    {
        let slot = &solution.solution_per_table[k];
        let ghost before = seated@;
        let mut l: usize = 0;
        while l < slot.people.len()
            invariant
                0 <= l <= slot.people@.len(),
                seated@ == before + slot.people@.take(l as int),
            decreases slot.people@.len() - l,
        {
            seated.push(slot.people[l]);
            proof {
                assert(seated@ =~= before + slot.people@.take(l + 1));
            }
            l = l + 1;
        }
        proof {
            let sol = solution@;
            assert(slot.people@.take(slot.people@.len() as int) =~= slot.people@);
            assert(seated@ =~= before + slot.people@);
            assert(sol.take(k + 1) =~= sol.take(k as int).push(sol[k as int]));
            assert(sol.take(k + 1).map_values(|t: (usize, Seq<usize>)| t.1) =~= sol.take(
                k as int,
            ).map_values(|t: (usize, Seq<usize>)| t.1).push(sol[k as int].1));
            assert(sol[k as int].1 == slot.people@);
            assert(seated_ids(sol.take(k + 1)) == sol.take(k as int).map_values(
                |t: (usize, Seq<usize>)| t.1,
            ).push(slot.people@).flatten());
            sol.take(k as int).map_values(|t: (usize, Seq<usize>)| t.1).lemma_flatten_push(
                slot.people@,
            );
            assert(seated_ids(sol.take(k + 1)) =~= seated_ids(sol.take(k as int))
                + slot.people@);
            assert(seated@ =~= seated_ids(sol.take(k + 1)));
        }
        k = k + 1;
    }
    proof {
        assert(solution@.take(solution@.len() as int) =~= solution@);
    }
    seated
}

/// Checks the structural invariants of a solution: the slot list matches the
/// problem's table-day slots, every person is seated exactly once and nobody
/// else is, and no slot exceeds `MAX_PEOPLE_FOR_TABLE` occupants.
pub fn validate_solution(problem: &ProblemDescription, solution: &Solution) -> (r: bool)
    requires
        problem_wf(*problem),
    ensures
        r == solution_complete(*problem, solution@),
{
    let n = solution.solution_per_table.len();
    if n != problem.tables.len() {
        return false;
    }
    let mut k: usize = 0;
    while k < n
        invariant
            n == solution.solution_per_table@.len() == problem.tables@.len(),
            0 <= k <= n,
            forall|i: int| 0 <= i < k ==> (#[trigger] solution@[i].0) == problem.tables@[i].id,
            forall|i: int|
                0 <= i < k ==> (#[trigger] solution@[i].1).len() <= MAX_PEOPLE_FOR_TABLE,
        decreases n - k,
    {
        let slot = &solution.solution_per_table[k];
        proof {
            assert(solution@[k as int] == solution.solution_per_table@[k as int]@);
        }
        if slot.table_day_id != problem.tables[k].id {
            proof {
                assert(solution@[k as int].0 != problem.tables@[k as int].id);
            }
            return false;
        }
        if slot.people.len() > MAX_PEOPLE_FOR_TABLE {
            proof {
                assert(solution@[k as int].1.len() > MAX_PEOPLE_FOR_TABLE);
            }
            return false;
        }
        k = k + 1;
    }
    let seated = collect_seated(solution);
    if !all_distinct(&seated) {
        return false;
    }
    if seated.len() != problem.people.len() {
        proof {
            lemma_person_ids_no_duplicates(*problem);
            if covers_people(*problem, solution@) {
                seated@.unique_seq_to_set();
                person_ids(problem.people@).unique_seq_to_set();
                assert(false);
            }
        }
        return false;
    }
    let mut k: usize = 0;
    while k < seated.len()
        invariant
            0 <= k <= seated@.len(),
            seated@ == seated_ids(solution@),
            forall|i: int|
                0 <= i < k ==> person_id_set(problem.people@).contains(#[trigger] seated@[i]),
        decreases seated@.len() - k,
    {
        if !contains_person_id(&problem.people, seated[k]) {
            proof {
                assert(!person_id_set(problem.people@).contains(seated@[k as int])) by {
                    if person_id_set(problem.people@).contains(seated@[k as int]) {
                        let i = choose|i: int|
                            0 <= i < person_ids(problem.people@).len() && person_ids(
                                problem.people@,
                            )[i] == seated@[k as int];
                        assert(problem.people@[i].id == seated@[k as int]);
                    }
                }
                assert(seated_ids(solution@).to_set().contains(seated@[k as int]));
            }
            return false;
        }
        proof {
            let i = choose|i: int|
                0 <= i < problem.people@.len() && problem.people@[i].id == seated@[k as int];
            assert(person_ids(problem.people@)[i] == seated@[k as int]);
        }
        k = k + 1;
    }
    proof {
        lemma_person_ids_no_duplicates(*problem);
        seated@.unique_seq_to_set();
        person_ids(problem.people@).unique_seq_to_set();
        assert(seated@.to_set().subset_of(person_id_set(problem.people@))) by {
            assert forall|x: usize| seated@.to_set().contains(x) implies person_id_set(
                problem.people@,
            ).contains(x) by {
                let i = choose|i: int| 0 <= i < seated@.len() && seated@[i] == x;
            }
        }
        lemma_subset_same_len_equal(seated@.to_set(), person_id_set(problem.people@));
    }
    true
}

} // verus!
