//! Data model: people with their visit histories, table-day slots, pairwise
//! relation weights, and the solution representation.
//!
//! Dates are held as day numbers (days since the epoch); objective values and
//! relation weights are held in thousandths (millis), so that the scoring is
//! exact integer arithmetic.

use vstd::prelude::*;

verus! {

/// Hard per-slot occupancy limit.
pub const MAX_PEOPLE_FOR_TABLE: usize = 6;

/// Largest magnitude accepted for a relation weight, in millis.
pub const WEIGHT_LIMIT_MILLIS: i64 = 1_000_000_000;

/// Largest accepted number of table-day slots, so that aggregate objective
/// values stay well inside `i64`.
pub const MAX_TABLE_DAYS: usize = 100_000_000;

/// Largest accepted day number for visits and table days.
pub const MAX_DAY_NUMBER: u64 = 100_000_000;

/// One past visit of a person: which physical table, and on which day.
#[derive(Clone, Copy, Debug)]
pub struct PersonVisit {
    pub table_id: usize,
    pub day: u64,
}

/// A person to seat, with their full visit history.
#[derive(Debug)]
pub struct Person {
    pub id: usize,
    pub visits: Vec<PersonVisit>,
}

/// One offering of a physical table on one day; `id` is unique per offering,
/// `table_id` is the recurring physical table.
#[derive(Clone, Copy, Debug)]
pub struct TableDay {
    pub id: usize,
    pub table_id: usize,
    pub day: u64,
}

/// Symmetric affinity between two people, stored once per unordered pair,
/// canonically with `person_a < person_b`.
#[derive(Clone, Copy, Debug)]
pub struct RelationWeight {
    pub person_a: usize,
    pub person_b: usize,
    pub weight_millis: i64,
}

/// The closed problem instance for one solving run.
#[derive(Debug)]
pub struct ProblemDescription {
    pub people: Vec<Person>,
    pub tables: Vec<TableDay>,
    pub people_relations: Vec<RelationWeight>,
}

/// The ordered occupant list of one table-day slot; order is significant,
/// since adjacency in the cyclic seating defines the relation term.
#[derive(Debug)]
pub struct SlotAssignment {
    pub table_day_id: usize,
    pub people: Vec<usize>,
}

impl View for SlotAssignment {
    type V = (usize, Seq<usize>);

    open spec fn view(&self) -> (usize, Seq<usize>) {
        (self.table_day_id, self.people@)
    }
}

/// A seating assignment: one occupant list per table-day slot, listed in the
/// same order as the problem's `tables`.
#[derive(Debug)]
pub struct Solution {
    pub solution_per_table: Vec<SlotAssignment>,
}

impl View for Solution {
    type V = Seq<(usize, Seq<usize>)>;

    open spec fn view(&self) -> Seq<(usize, Seq<usize>)> {
        self.solution_per_table@.map_values(|s: SlotAssignment| s@)
    }
}

/// Output of one solver run.
#[derive(Debug)]
pub struct AlgorithmResults {
    pub solution: Solution,
    pub no_of_iterations: u64,
    pub elapsed_millis: i64,
}

/// The one unrecoverable solver fault: some person cannot be placed anywhere
/// because every slot is at capacity.
#[derive(Clone, Copy, Debug, PartialEq, Eq)]
pub enum SolveError {
    Infeasible,
}

pub open spec fn person_ids(people: Seq<Person>) -> Seq<usize> {
    people.map_values(|p: Person| p.id)
}

pub open spec fn person_id_set(people: Seq<Person>) -> Set<usize> {
    person_ids(people).to_set()
}

pub open spec fn has_person(people: Seq<Person>, id: usize) -> bool {
    exists|i: int| 0 <= i < people.len() && people[i].id == id
}

pub open spec fn has_table(tables: Seq<TableDay>, id: usize) -> bool {
    exists|i: int| 0 <= i < tables.len() && tables[i].id == id
}

pub open spec fn visits_wf(visits: Seq<PersonVisit>) -> bool {
    forall|i: int| 0 <= i < visits.len() ==> #[trigger] visits[i].day <= MAX_DAY_NUMBER
}

pub open spec fn relation_wf(people: Seq<Person>, r: RelationWeight) -> bool {
    &&& r.person_a < r.person_b
    &&& has_person(people, r.person_a)
    &&& has_person(people, r.person_b)
    &&& -WEIGHT_LIMIT_MILLIS <= r.weight_millis <= WEIGHT_LIMIT_MILLIS
}

/// Referential integrity and machine-size bounds for one problem instance:
/// unique person and slot ids, bounded day numbers, and relation entries that
/// are canonical, unique per pair, in range, and refer to known people.
pub open spec fn problem_wf(p: ProblemDescription) -> bool {
    &&& forall|i: int, j: int|
        0 <= i < j < p.people@.len() ==> (#[trigger] p.people@[i].id) != (#[trigger] p.people@[j].id)
    &&& forall|i: int, j: int|
        0 <= i < j < p.tables@.len() ==> (#[trigger] p.tables@[i].id) != (#[trigger] p.tables@[j].id)
    &&& p.tables@.len() <= MAX_TABLE_DAYS
    &&& forall|i: int| 0 <= i < p.tables@.len() ==> (#[trigger] p.tables@[i].day) <= MAX_DAY_NUMBER
    &&& forall|i: int| 0 <= i < p.people@.len() ==> visits_wf(#[trigger] p.people@[i].visits@)
    &&& forall|i: int|
        0 <= i < p.people_relations@.len() ==> relation_wf(p.people@, #[trigger] p.people_relations@[i])
    &&& forall|i: int, j: int|
        0 <= i < j < p.people_relations@.len() ==> !((#[trigger] p.people_relations@[i]).person_a
            == (#[trigger] p.people_relations@[j]).person_a
            && p.people_relations@[i].person_b == p.people_relations@[j].person_b)
}

/// All seated person ids of a solution, slot by slot in order.
pub open spec fn seated_ids(sol: Seq<(usize, Seq<usize>)>) -> Seq<usize> {
    sol.map_values(|t: (usize, Seq<usize>)| t.1).flatten()
}

/// The solution lists exactly the problem's slots, in the problem's order.
pub open spec fn slots_match(p: ProblemDescription, sol: Seq<(usize, Seq<usize>)>) -> bool {
    &&& sol.len() == p.tables@.len()
    &&& forall|i: int| 0 <= i < sol.len() ==> (#[trigger] sol[i].0) == p.tables@[i].id
}

/// No slot holds more than `MAX_PEOPLE_FOR_TABLE` people.
pub open spec fn capacity_respected(sol: Seq<(usize, Seq<usize>)>) -> bool {
    forall|i: int| 0 <= i < sol.len() ==> (#[trigger] sol[i].1).len() <= MAX_PEOPLE_FOR_TABLE
}

/// Every person of the problem is seated exactly once and nobody else is.
pub open spec fn covers_people(p: ProblemDescription, sol: Seq<(usize, Seq<usize>)>) -> bool {
    &&& seated_ids(sol).no_duplicates()
    &&& seated_ids(sol).to_set() == person_id_set(p.people@)
}

/// What it means for a solution to be complete for a problem: the structural
/// invariants that any accepted or final solution must satisfy.
pub open spec fn solution_complete(p: ProblemDescription, sol: Seq<(usize, Seq<usize>)>) -> bool {
    &&& slots_match(p, sol)
    &&& capacity_respected(sol)
    &&& covers_people(p, sol)
}

/// The ids of a duplicate-id-free people list form a duplicate-free
/// sequence.
pub proof fn lemma_person_ids_no_duplicates(p: ProblemDescription)
    requires
        problem_wf(p),
    ensures
        person_ids(p.people@).no_duplicates(),
        person_ids(p.people@).len() == p.people@.len(),
{
    assert forall|i: int, j: int|
        0 <= i < person_ids(p.people@).len() && 0 <= j < person_ids(p.people@).len() && i
            != j implies person_ids(p.people@)[i] != person_ids(p.people@)[j] by {
        assert(person_ids(p.people@)[i] == p.people@[i].id);
        assert(person_ids(p.people@)[j] == p.people@[j].id);
        if i < j {
            assert(p.people@[i].id != p.people@[j].id);
        } else {
            assert(p.people@[j].id != p.people@[i].id);
        }
    }
}

/// Whether `id` occurs among the first `n` people.
pub(crate) fn contains_person_id(people: &Vec<Person>, id: usize) -> (b: bool)
    ensures
        b == has_person(people@, id),
{
    let mut k: usize = 0;
    while k < people.len()
        invariant
            0 <= k <= people@.len(),
            forall|i: int| 0 <= i < k ==> people@[i].id != id,
        decreases people@.len() - k,
    {
        if people[k].id == id {
            return true;
        }
        k = k + 1;
    }
    false
}

/// Whether the values of `v` are pairwise distinct.
pub(crate) fn all_distinct(v: &Vec<usize>) -> (b: bool)
    ensures
        b == v@.no_duplicates(),
{
    let mut k: usize = 0;
    while k < v.len()
        invariant
            0 <= k <= v@.len(),
            forall|i: int, j: int| 0 <= i < j < k ==> v@[i] != v@[j],
        decreases v@.len() - k,
    {
        let mut l: usize = 0;
        while l < k
            invariant
                0 <= l <= k < v@.len(),
                forall|i: int| 0 <= i < l ==> v@[i] != v@[k as int],
            decreases k - l,
        {
            if v[l] == v[k] {
                return false;
            }
            l = l + 1;
        }
        k = k + 1;
    }
    true
}

/// The ids of all people, in order.
pub(crate) fn ids_of_people(people: &Vec<Person>) -> (r: Vec<usize>)
    ensures
        r@ == person_ids(people@),
{
    let mut r: Vec<usize> = Vec::new();
    let mut k: usize = 0;
    while k < people.len()
        invariant
            0 <= k <= people@.len(),
            r@ == person_ids(people@).take(k as int),
        decreases people@.len() - k,
    {
        r.push(people[k].id);
        proof {
            assert(r@ =~= person_ids(people@).take(k + 1));
        }
        k = k + 1;
    }
    proof {
        assert(person_ids(people@).take(people@.len() as int) =~= person_ids(people@));
    }
    r
}

/// Checks every structural invariant of a problem instance, so that a caller
/// holding untrusted input can establish `problem_wf` before solving.
pub fn check_problem(p: &ProblemDescription) -> (b: bool)
    ensures
        b == problem_wf(*p),
{
    let people_ids = ids_of_people(&p.people);
    if !all_distinct(&people_ids) {
        proof {
            let (i, j) = choose|i: int, j: int|
                0 <= i < people_ids@.len() && 0 <= j < people_ids@.len() && i != j && people_ids@[i]
                    == people_ids@[j];
            assert(people_ids@[i] == p.people@[i].id);
            assert(people_ids@[j] == p.people@[j].id);
            if i < j {
                assert(p.people@[i].id == p.people@[j].id);
            } else {
                assert(p.people@[j].id == p.people@[i].id);
            }
        }
        return false;
    }
    proof {
        assert forall|i: int, j: int|
            0 <= i < j < p.people@.len() implies (#[trigger] p.people@[i].id) != (
        #[trigger] p.people@[j].id) by {
            assert(people_ids@[i] == p.people@[i].id);
            assert(people_ids@[j] == p.people@[j].id);
        }
    }

    let mut k: usize = 0;
    while k < p.tables.len()
        invariant
            0 <= k <= p.tables@.len(),
            forall|i: int, j: int|
                0 <= i < j < k ==> (#[trigger] p.tables@[i].id) != (#[trigger] p.tables@[j].id),
            forall|i: int| 0 <= i < k ==> (#[trigger] p.tables@[i].day) <= MAX_DAY_NUMBER,
        decreases p.tables@.len() - k,
    {
        if p.tables[k].day > MAX_DAY_NUMBER {
            return false;
        }
        let mut l: usize = 0;
        while l < k
            invariant
                0 <= l <= k < p.tables@.len(),
                forall|i: int| 0 <= i < l ==> (#[trigger] p.tables@[i].id) != p.tables@[k as int].id,
            decreases k - l,
        {
            if p.tables[l].id == p.tables[k].id {
                return false;
            }
            l = l + 1;
        }
        k = k + 1;
    }
    if p.tables.len() > MAX_TABLE_DAYS {
        return false;
    }

    let mut k: usize = 0;
    while k < p.people.len()
        invariant
            0 <= k <= p.people@.len(),
            forall|i: int| 0 <= i < k ==> visits_wf(#[trigger] p.people@[i].visits@),
        decreases p.people@.len() - k,
    {
        let visits = &p.people[k].visits;
        let mut l: usize = 0;
        while l < visits.len()
            invariant
                0 <= l <= visits@.len(),
                0 <= k < p.people@.len(),
                visits@ == p.people@[k as int].visits@,
                forall|i: int| 0 <= i < l ==> (#[trigger] visits@[i].day) <= MAX_DAY_NUMBER,
        decreases visits@.len() - l,
        {
            if visits[l].day > MAX_DAY_NUMBER {
                proof {
                    assert(!visits_wf(p.people@[k as int].visits@));
                }
                return false;
            }
            l = l + 1;
        }
        k = k + 1;
    }

    let rels = &p.people_relations;
    let mut k: usize = 0;
    while k < rels.len()
        invariant
            0 <= k <= rels@.len(),
            rels@ == p.people_relations@,
            forall|i: int| 0 <= i < k ==> relation_wf(p.people@, #[trigger] rels@[i]),
            forall|i: int, j: int|
                0 <= i < j < k ==> !((#[trigger] rels@[i]).person_a == (#[trigger] rels@[j]).person_a
                    && rels@[i].person_b == rels@[j].person_b),
        decreases rels@.len() - k,
    {
        let r = rels[k];
        if !(r.person_a < r.person_b) {
            proof {
                assert(!relation_wf(p.people@, p.people_relations@[k as int]));
            }
            return false;
        }
        if !contains_person_id(&p.people, r.person_a) {
            proof {
                assert(!relation_wf(p.people@, p.people_relations@[k as int]));
            }
            return false;
        }
        if !contains_person_id(&p.people, r.person_b) {
            proof {
                assert(!relation_wf(p.people@, p.people_relations@[k as int]));
            }
            return false;
        }
        if r.weight_millis < -WEIGHT_LIMIT_MILLIS || r.weight_millis > WEIGHT_LIMIT_MILLIS {
            proof {
                assert(!relation_wf(p.people@, p.people_relations@[k as int]));
            }
            return false;
        }
        let mut l: usize = 0;
        while l < k
            invariant
                0 <= l <= k < rels@.len(),
                rels@ == p.people_relations@,
                forall|i: int|
                    0 <= i < l ==> !((#[trigger] rels@[i]).person_a == rels@[k as int].person_a
                        && rels@[i].person_b == rels@[k as int].person_b),
            decreases k - l,
        {
            if rels[l].person_a == rels[k].person_a && rels[l].person_b == rels[k].person_b {
                proof {
                    assert(p.people_relations@[l as int].person_a == p.people_relations@[
                        k as int].person_a && p.people_relations@[l as int].person_b
                        == p.people_relations@[k as int].person_b);
                }
                return false;
            }
            l = l + 1;
        }
        k = k + 1;
    }
    true
}

} // verus!
