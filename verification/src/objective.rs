//! Objective evaluator: scores an ordered group of people seated at one
//! table-day slot, and whole solutions.
//!
//! A group is seated in a cycle: seat `i` is adjacent to seat `(i+1) mod n`.
//! For `n > 1` each person contributes the relation weight with the next
//! seat's occupant. Every person further contributes a recency term (a linear
//! ramp in the day gap since their most recent visit, clamped to
//! [-1000, 1000] millis, worth 1000 when they never visited), +500 millis if
//! they never visited this slot's physical table, and +500 millis if they
//! never visited on this slot's weekday.

use vstd::prelude::*;

use crate::problem::{
    capacity_respected, has_person, has_table, problem_wf, visits_wf, Person, PersonVisit,
    ProblemDescription, RelationWeight, Solution, TableDay, MAX_DAY_NUMBER, MAX_PEOPLE_FOR_TABLE,
    MAX_TABLE_DAYS, WEIGHT_LIMIT_MILLIS,
};

verus! {

/// Weekday of a day number, as a residue in 0..7.
pub open spec fn weekday_of(day: u64) -> int {
    day as int % 7
}

/// Largest visit day among the first `n` visits (0 when there are none).
pub open spec fn max_day_upto(vs: Seq<PersonVisit>, n: int) -> int
    decreases n,
{
    if n <= 0 {
        0
    } else {
        let rest = max_day_upto(vs, n - 1);
        if vs[n - 1].day >= rest {
            vs[n - 1].day as int
        } else {
            rest
        }
    }
}

pub open spec fn has_visit_to_table(vs: Seq<PersonVisit>, table_id: usize) -> bool {
    exists|i: int| 0 <= i < vs.len() && vs[i].table_id == table_id
}

pub open spec fn has_visit_on_weekday(vs: Seq<PersonVisit>, weekday: int) -> bool {
    exists|i: int| 0 <= i < vs.len() && weekday_of(vs[i].day) == weekday
}

/// Relation weight found among the first `n` entries for the unordered pair
/// `{x, y}` (earliest entry wins); `None` when no entry matches.
pub open spec fn relation_upto(rels: Seq<RelationWeight>, x: usize, y: usize, n: int) -> Option<
    int,
>
    decreases n,
{
    let lo = if x <= y {
        x
    } else {
        y
    };
    let hi = if x <= y {
        y
    } else {
        x
    };
    if n <= 0 {
        None
    } else if relation_upto(rels, x, y, n - 1) is Some {
        relation_upto(rels, x, y, n - 1)
    } else if rels[n - 1].person_a == lo && rels[n - 1].person_b == hi {
        Some(rels[n - 1].weight_millis as int)
    } else {
        None
    }
}

/// Relation weight in millis between `x` and `y`; zero when no entry exists.
pub open spec fn relation_millis(rels: Seq<RelationWeight>, x: usize, y: usize) -> int {
    match relation_upto(rels, x, y, rels.len() as int) {
        Some(w) => w,
        None => 0,
    }
}

/// Recency term in millis for a day gap between a slot's day and the most
/// recent visit: a linear ramp from -1000 at gap 0 to +1000 at gap 30.
pub open spec fn recency_millis(gap: int) -> int {
    if gap <= 0 {
        -1000
    } else if gap >= 30 {
        1000
    } else {
        gap * 1000 / 15 - 1000
    }
}

/// The person with the given id (meaningful under `has_person`).
pub open spec fn person_of(people: Seq<Person>, id: usize) -> Person {
    people[choose|i: int| 0 <= i < people.len() && people[i].id == id]
}

/// The table-day slot with the given id (meaningful under `has_table`).
pub open spec fn table_of(tables: Seq<TableDay>, id: usize) -> TableDay {
    tables[choose|i: int| 0 <= i < tables.len() && tables[i].id == id]
}

/// Per-person, relation-free part of the score for person `p` at slot `t`.
pub open spec fn person_term_millis(p: Person, t: TableDay) -> int {
    (if p.visits@.len() == 0 {
        1000
    } else {
        recency_millis(t.day - max_day_upto(p.visits@, p.visits@.len() as int))
    }) + (if !has_visit_to_table(p.visits@, t.table_id) {
        500int
    } else {
        0int
    }) + (if !has_visit_on_weekday(p.visits@, weekday_of(t.day)) {
        500int
    } else {
        0int
    })
}

/// Full contribution of seat `i` in group `g` at slot `t`: the relation with
/// the cyclically next seat (when the group has more than one person), plus
/// the per-person term.
pub open spec fn seat_term(p: ProblemDescription, t: TableDay, g: Seq<usize>, i: int) -> int {
    (if g.len() > 1 {
        relation_millis(p.people_relations@, g[i], g[(i + 1) % (g.len() as int)])
    } else {
        0
    }) + person_term_millis(person_of(p.people@, g[i]), t)
}

/// Sum of the contributions of seats `0..n`.
pub open spec fn seat_sum(p: ProblemDescription, t: TableDay, g: Seq<usize>, n: int) -> int
    decreases n,
{
    if n <= 0 {
        0
    } else {
        seat_sum(p, t, g, n - 1) + seat_term(p, t, g, n - 1)
    }
}

/// Value in millis of seating the ordered group `g` at the slot with id
/// `table_day_id`; 0 for an empty group.
pub open spec fn table_value_millis(p: ProblemDescription, table_day_id: usize, g: Seq<usize>) -> int {
    seat_sum(p, table_of(p.tables@, table_day_id), g, g.len() as int)
}

/// Sum of the table values of the first `n` slots of a solution.
pub open spec fn solution_value_upto(p: ProblemDescription, sol: Seq<(usize, Seq<usize>)>, n: int) -> int
    decreases n,
{
    if n <= 0 {
        0
    } else {
        solution_value_upto(p, sol, n - 1) + table_value_millis(p, sol[n - 1].0, sol[n - 1].1)
    }
}

/// Aggregate value in millis of a whole solution.
pub open spec fn solution_value_millis(p: ProblemDescription, sol: Seq<(usize, Seq<usize>)>) -> int {
    solution_value_upto(p, sol, sol.len() as int)
}

/// Largest possible magnitude, in millis, of one seat's contribution.
pub open spec fn seat_term_limit() -> int {
    WEIGHT_LIMIT_MILLIS + 2000
}

/// Largest possible magnitude, in millis, of one table's value.
pub open spec fn table_value_limit() -> int {
    MAX_PEOPLE_FOR_TABLE * seat_term_limit()
}

/// Largest possible magnitude, in millis, of a solution's value.
pub open spec fn solution_value_limit() -> int {
    MAX_TABLE_DAYS * table_value_limit()
}

pub proof fn lemma_max_day_bounds(vs: Seq<PersonVisit>, n: int)
    requires
        visits_wf(vs),
        n <= vs.len(),
    ensures
        0 <= max_day_upto(vs, n) <= MAX_DAY_NUMBER,
    decreases n,
{
    if n > 0 {
        lemma_max_day_bounds(vs, n - 1);
    }
}

pub proof fn lemma_relation_upto_bound(rels: Seq<RelationWeight>, x: usize, y: usize, n: int)
    requires
        forall|i: int|
            0 <= i < rels.len() ==> -WEIGHT_LIMIT_MILLIS <= (#[trigger] rels[i]).weight_millis
                <= WEIGHT_LIMIT_MILLIS,
        n <= rels.len(),
    ensures
        match relation_upto(rels, x, y, n) {
            Some(w) => -WEIGHT_LIMIT_MILLIS <= w <= WEIGHT_LIMIT_MILLIS,
            None => true,
        },
    decreases n,
{
    if n > 0 {
        lemma_relation_upto_bound(rels, x, y, n - 1);
    }
}

pub proof fn lemma_relation_millis_bound(p: ProblemDescription, x: usize, y: usize)
    requires
        problem_wf(p),
    ensures
        -WEIGHT_LIMIT_MILLIS <= relation_millis(p.people_relations@, x, y) <= WEIGHT_LIMIT_MILLIS,
{
    assert(forall|i: int|
        0 <= i < p.people_relations@.len() ==> -WEIGHT_LIMIT_MILLIS <= (
        #[trigger] p.people_relations@[i]).weight_millis <= WEIGHT_LIMIT_MILLIS);
    lemma_relation_upto_bound(
        p.people_relations@,
        x,
        y,
        p.people_relations@.len() as int,
    );
}

pub proof fn lemma_recency_bounds(gap: int)
    ensures
        -1000 <= recency_millis(gap) <= 1000,
{
    if 0 < gap < 30 {
        assert(0 <= gap * 1000 <= 29000) by (nonlinear_arith)
            requires
                0 < gap < 30,
        ;
        assert(0 <= gap * 1000 / 15 <= 1933);
    }
}

pub proof fn lemma_person_term_bounds(p: Person, t: TableDay)
    ensures
        -1000 <= person_term_millis(p, t) <= 2000,
{
    lemma_recency_bounds(t.day - max_day_upto(p.visits@, p.visits@.len() as int));
}

pub proof fn lemma_seat_term_bounds(p: ProblemDescription, t: TableDay, g: Seq<usize>, i: int)
    requires
        problem_wf(p),
        0 <= i < g.len(),
    ensures
        -seat_term_limit() <= seat_term(p, t, g, i) <= seat_term_limit(),
{
    lemma_relation_millis_bound(p, g[i], g[(i + 1) % (g.len() as int)]);
    lemma_person_term_bounds(person_of(p.people@, g[i]), t);
}

pub proof fn lemma_seat_sum_bounds(p: ProblemDescription, t: TableDay, g: Seq<usize>, n: int)
    requires
        problem_wf(p),
        0 <= n <= g.len(),
    ensures
        -n * seat_term_limit() <= seat_sum(p, t, g, n) <= n * seat_term_limit(),
    decreases n,
{
    if n <= 0 {
    } else {
        lemma_seat_sum_bounds(p, t, g, n - 1);
        lemma_seat_term_bounds(p, t, g, n - 1);
        assert((n - 1) * seat_term_limit() + seat_term_limit() == n * seat_term_limit())
            by (nonlinear_arith);
    }
}

/// The value of one table with at most `MAX_PEOPLE_FOR_TABLE` occupants is
/// bounded by `table_value_limit()`.
pub proof fn lemma_table_value_bounds(p: ProblemDescription, table_day_id: usize, g: Seq<usize>)
    requires
        problem_wf(p),
        g.len() <= MAX_PEOPLE_FOR_TABLE,
    ensures
        -table_value_limit() <= table_value_millis(p, table_day_id, g) <= table_value_limit(),
{
    let t = table_of(p.tables@, table_day_id);
    lemma_seat_sum_bounds(p, t, g, g.len() as int);
    assert(g.len() as int * seat_term_limit() <= MAX_PEOPLE_FOR_TABLE * seat_term_limit())
        by (nonlinear_arith)
        requires
            g.len() as int <= MAX_PEOPLE_FOR_TABLE,
            seat_term_limit() > 0,
    ;
}

/// The value of a capacity-respecting solution over at most `MAX_TABLE_DAYS`
/// slots is bounded by `solution_value_limit()`.
pub proof fn lemma_solution_value_bounds(
    p: ProblemDescription,
    sol: Seq<(usize, Seq<usize>)>,
    n: int,
)
    requires
        problem_wf(p),
        0 <= n,
        n <= sol.len() <= MAX_TABLE_DAYS,
        capacity_respected(sol),
    ensures
        -n * table_value_limit() <= solution_value_upto(p, sol, n) <= n * table_value_limit(),
        -solution_value_limit() <= solution_value_upto(p, sol, n) <= solution_value_limit(),
    decreases n,
{
    if n <= 0 {
    } else {
        lemma_solution_value_bounds(p, sol, n - 1);
        lemma_table_value_bounds(p, sol[n - 1].0, sol[n - 1].1);
        assert((n - 1) * table_value_limit() + table_value_limit() == n * table_value_limit())
            by (nonlinear_arith);
    }
    assert(seat_term_limit() == 1_000_002_000);
    assert(table_value_limit() == 6_000_012_000);
    assert(solution_value_limit() == 600_001_200_000_000_000);
    vstd::arithmetic::mul::lemma_mul_inequality(n, MAX_TABLE_DAYS as int, table_value_limit());
    vstd::arithmetic::mul::lemma_mul_inequality(-(MAX_TABLE_DAYS as int), -n, table_value_limit());
    assert(-(MAX_TABLE_DAYS as int) * table_value_limit() == -solution_value_limit())
        by (nonlinear_arith);
    assert(-n * table_value_limit() == -(n * table_value_limit())) by (nonlinear_arith);
}

/// `s` rotated left by `k`: element `i` of the result is `s[(i + k) % len]`.
pub open spec fn rotate(s: Seq<usize>, k: int) -> Seq<usize> {
    Seq::new(s.len(), |i: int| s[(i + k) % (s.len() as int)])
}

/// `b` is a cyclic rotation of `a`.
pub open spec fn is_rotation_of(a: Seq<usize>, b: Seq<usize>) -> bool {
    a.len() == b.len() && (a.len() == 0 || exists|k: int| 0 <= k < a.len() && b == rotate(a, k))
}

/// `a % n` for `a` in `[0, 2n)`: the remainder needs at most one subtraction.
pub proof fn lemma_mod_in_range(a: int, n: int)
    requires
        n > 0,
        0 <= a < 2 * n,
    ensures
        a % n == if a < n {
            a
        } else {
            a - n
        },
{
    if a < n {
        vstd::arithmetic::div_mod::lemma_small_mod(a as nat, n as nat);
    } else {
        vstd::arithmetic::div_mod::lemma_mod_sub_multiples_vanish(a, n);
        vstd::arithmetic::div_mod::lemma_small_mod((a - n) as nat, n as nat);
    }
}

/// Contribution of cyclic seat `i` (indices reduced mod the group length).
spec fn cyc_term(p: ProblemDescription, t: TableDay, g: Seq<usize>, i: int) -> int {
    let n = g.len() as int;
    (if g.len() > 1 {
        relation_millis(p.people_relations@, g[i % n], g[(i + 1) % n])
    } else {
        0
    }) + person_term_millis(person_of(p.people@, g[i % n]), t)
}

/// Sum of `m` consecutive cyclic seat contributions starting at seat `j`.
spec fn cyc_sum(p: ProblemDescription, t: TableDay, g: Seq<usize>, j: int, m: nat) -> int
    decreases m,
{
    if m == 0 {
        0
    } else {
        cyc_term(p, t, g, j) + cyc_sum(p, t, g, j + 1, (m - 1) as nat)
    }
}

proof fn lemma_cyc_sum_split_last(p: ProblemDescription, t: TableDay, g: Seq<usize>, j: int, m: nat)
    ensures
        cyc_sum(p, t, g, j, (m + 1) as nat) == cyc_sum(p, t, g, j, m) + cyc_term(p, t, g, j + m),
    decreases m,
{
    assert(cyc_sum(p, t, g, j, (m + 1) as nat) == cyc_term(p, t, g, j) + cyc_sum(
        p,
        t,
        g,
        j + 1,
        m,
    ));
    if m > 0 {
        lemma_cyc_sum_split_last(p, t, g, j + 1, (m - 1) as nat);
        assert(cyc_sum(p, t, g, j, m) == cyc_term(p, t, g, j) + cyc_sum(
            p,
            t,
            g,
            j + 1,
            (m - 1) as nat,
        ));
    }
}

proof fn lemma_cyc_term_period(p: ProblemDescription, t: TableDay, g: Seq<usize>, i: int)
    requires
        g.len() >= 1,
        i >= 0,
    ensures
        cyc_term(p, t, g, i + g.len()) == cyc_term(p, t, g, i),
{
    let n = g.len() as int;
    vstd::arithmetic::div_mod::lemma_mod_add_multiples_vanish(i, n);
    vstd::arithmetic::div_mod::lemma_mod_add_multiples_vanish(i + 1, n);
    assert((i + g.len()) % n == i % n);
    assert((i + g.len() + 1) % n == (i + 1) % n);
}

proof fn lemma_cyc_sum_shift_one(p: ProblemDescription, t: TableDay, g: Seq<usize>, j: int)
    requires
        g.len() >= 1,
        j >= 0,
    ensures
        cyc_sum(p, t, g, j + 1, g.len() as nat) == cyc_sum(p, t, g, j, g.len() as nat),
{
    let n = g.len() as nat;
    lemma_cyc_sum_split_last(p, t, g, j + 1, (n - 1) as nat);
    lemma_cyc_term_period(p, t, g, j);
    assert(cyc_sum(p, t, g, j, n) == cyc_term(p, t, g, j) + cyc_sum(p, t, g, j + 1, (n - 1) as nat));
}

proof fn lemma_cyc_sum_from_zero(p: ProblemDescription, t: TableDay, g: Seq<usize>, j: int)
    requires
        g.len() >= 1,
        j >= 0,
    ensures
        cyc_sum(p, t, g, j, g.len() as nat) == cyc_sum(p, t, g, 0, g.len() as nat),
    decreases j,
{
    if j > 0 {
        lemma_cyc_sum_from_zero(p, t, g, j - 1);
        lemma_cyc_sum_shift_one(p, t, g, j - 1);
    }
}

proof fn lemma_seat_sum_is_cyc(p: ProblemDescription, t: TableDay, g: Seq<usize>, m: nat)
    requires
        m <= g.len(),
    ensures
        seat_sum(p, t, g, m as int) == cyc_sum(p, t, g, 0, m),
    decreases m,
{
    if m > 0 {
        lemma_seat_sum_is_cyc(p, t, g, (m - 1) as nat);
        lemma_cyc_sum_split_last(p, t, g, 0, (m - 1) as nat);
        vstd::arithmetic::div_mod::lemma_small_mod((m - 1) as nat, g.len());
        assert(cyc_term(p, t, g, m - 1) == seat_term(p, t, g, m - 1));
    }
}

proof fn lemma_cyc_term_rotate(p: ProblemDescription, t: TableDay, g: Seq<usize>, k: int, i: int)
    requires
        0 <= k < g.len(),
        i >= 0,
    ensures
        cyc_term(p, t, rotate(g, k), i) == cyc_term(p, t, g, i + k),
{
    let n = g.len() as int;
    let h = rotate(g, k);
    assert(h.len() == g.len());
    vstd::arithmetic::div_mod::lemma_mod_division_less_than_divisor(i, n);
    vstd::arithmetic::div_mod::lemma_mod_division_less_than_divisor(i + 1, n);
    assert(h[i % n] == g[(i % n + k) % n]);
    assert(h[(i + 1) % n] == g[((i + 1) % n + k) % n]);
    vstd::arithmetic::div_mod::lemma_small_mod(k as nat, n as nat);
    vstd::arithmetic::div_mod::lemma_add_mod_noop(i, k, n);
    vstd::arithmetic::div_mod::lemma_add_mod_noop(i + 1, k, n);
    assert((i % n + k) % n == (i % n + k % n) % n);
    assert((i % n + k % n) % n == (i + k) % n);
    assert(((i + 1) % n + k) % n == (i + 1 + k) % n);
    assert(h[i % n] == g[(i + k) % n]);
    assert(h[(i + 1) % n] == g[(i + k + 1) % n]);
}

proof fn lemma_cyc_sum_rotate(
    p: ProblemDescription,
    t: TableDay,
    g: Seq<usize>,
    k: int,
    j: int,
    m: nat,
)
    requires
        0 <= k < g.len(),
        j >= 0,
    ensures
        cyc_sum(p, t, rotate(g, k), j, m) == cyc_sum(p, t, g, j + k, m),
    decreases m,
{
    if m > 0 {
        lemma_cyc_term_rotate(p, t, g, k, j);
        lemma_cyc_sum_rotate(p, t, g, k, j + 1, (m - 1) as nat);
    }
}

/// Rotation invariance of the objective: two occupant sequences that are
/// cyclic rotations of one another have the same table value, since cyclic
/// adjacency does not depend on where the cycle starts.
pub proof fn lemma_table_value_rotation(
    p: ProblemDescription,
    table_day_id: usize,
    g: Seq<usize>,
    k: int,
)
    requires
        0 <= k < g.len(),
    ensures
        table_value_millis(p, table_day_id, rotate(g, k)) == table_value_millis(p, table_day_id, g),
{
    let t = table_of(p.tables@, table_day_id);
    let n = g.len() as nat;
    let h = rotate(g, k);
    lemma_seat_sum_is_cyc(p, t, h, n);
    lemma_cyc_sum_rotate(p, t, g, k, 0, n);
    lemma_cyc_sum_from_zero(p, t, g, k);
    lemma_seat_sum_is_cyc(p, t, g, n);
}

/// Rotation invariance of the objective, stated for the `is_rotation_of`
/// relation.
pub proof fn lemma_table_value_rotation_invariant(
    p: ProblemDescription,
    table_day_id: usize,
    a: Seq<usize>,
    b: Seq<usize>,
)
    requires
        is_rotation_of(a, b),
    ensures
        table_value_millis(p, table_day_id, b) == table_value_millis(p, table_day_id, a),
{
    if a.len() > 0 {
        let k = choose|k: int| 0 <= k < a.len() && b == rotate(a, k);
        lemma_table_value_rotation(p, table_day_id, a, k);
    } else {
        assert(b.len() == 0);
    }
}

/// With pairwise-distinct ids, `person_of` resolves `people[k].id` to
/// `people[k]` itself.
pub proof fn lemma_person_of_is(people: Seq<Person>, k: int)
    requires
        forall|i: int, j: int|
            0 <= i < j < people.len() ==> (#[trigger] people[i].id) != (#[trigger] people[j].id),
        0 <= k < people.len(),
    ensures
        has_person(people, people[k].id),
        person_of(people, people[k].id) == people[k],
{
    let id = people[k].id;
    assert(has_person(people, id));
    let i = choose|i: int| 0 <= i < people.len() && people[i].id == id;
    if i < k {
        assert(people[i].id != people[k].id);
    } else if i > k {
        assert(people[k].id != people[i].id);
    }
}

/// With pairwise-distinct ids, `table_of` resolves `tables[k].id` to
/// `tables[k]` itself.
pub proof fn lemma_table_of_is(tables: Seq<TableDay>, k: int)
    requires
        forall|i: int, j: int|
            0 <= i < j < tables.len() ==> (#[trigger] tables[i].id) != (#[trigger] tables[j].id),
        0 <= k < tables.len(),
    ensures
        has_table(tables, tables[k].id),
        table_of(tables, tables[k].id) == tables[k],
{
    let id = tables[k].id;
    assert(has_table(tables, id));
    let i = choose|i: int| 0 <= i < tables.len() && tables[i].id == id;
    if i < k {
        assert(tables[i].id != tables[k].id);
    } else if i > k {
        assert(tables[k].id != tables[i].id);
    }
}

/// Pre-indexed, per-person facts the evaluator needs in O(1): the most recent
/// visit day, every table ever visited, and the weekdays ever visited.
pub struct PersonStats {
    pub id: usize,
    pub most_recent_day: Option<u64>,
    pub visited_tables: Vec<usize>,
    pub visited_weekdays: Vec<bool>,
}

/// The stats faithfully summarize the person's visit history.
pub open spec fn person_stats_wf(s: PersonStats, p: Person) -> bool {
    &&& s.id == p.id
    &&& match s.most_recent_day {
        Option::None => p.visits@.len() == 0,
        Option::Some(d) => p.visits@.len() > 0 && d == max_day_upto(
            p.visits@,
            p.visits@.len() as int,
        ),
    }
    &&& forall|tid: usize|
        #[trigger] s.visited_tables@.contains(tid) <==> has_visit_to_table(p.visits@, tid)
    &&& s.visited_weekdays@.len() == 7
    &&& forall|w: int|
        0 <= w < 7 ==> ((#[trigger] s.visited_weekdays@[w]) <==> has_visit_on_weekday(
            p.visits@,
            w,
        ))
}

/// Summarizes one person's visit history into `PersonStats`.
fn build_person_stats(p: &Person) -> (r: PersonStats)
    ensures
        person_stats_wf(r, *p),
{
    let n = p.visits.len();
    let mut most: u64 = 0;
    let mut tables_seen: Vec<usize> = Vec::new();
    let mut weekdays: Vec<bool> = Vec::new();
    let mut w: usize = 0;
    while w < 7
        invariant
            weekdays@.len() == w <= 7,
            forall|i: int| 0 <= i < w ==> !(#[trigger] weekdays@[i]),
        decreases 7 - w,
    {
        weekdays.push(false);
        w = w + 1;
    }
    let mut k: usize = 0;
    while k < n
        invariant
            0 <= k <= p.visits@.len(),
            n == p.visits@.len(),
            most == max_day_upto(p.visits@, k as int),
            tables_seen@.len() == k,
            forall|i: int| 0 <= i < k ==> (#[trigger] tables_seen@[i]) == p.visits@[i].table_id,
            weekdays@.len() == 7,
            forall|wd: int|
                0 <= wd < 7 ==> ((#[trigger] weekdays@[wd]) <==> exists|i: int|
                    0 <= i < k && weekday_of(p.visits@[i].day) == wd),
        decreases n - k,
    {
        let v = p.visits[k];
        if v.day >= most {
            most = v.day;
        }
        tables_seen.push(v.table_id);
        let wd_idx: usize = (v.day % 7) as usize;
        assert(wd_idx as int == weekday_of(p.visits@[k as int].day));
        weekdays.set(wd_idx, true);
        proof {
            assert forall|wd: int|
                0 <= wd < 7 implies ((#[trigger] weekdays@[wd]) <==> exists|i: int|
                0 <= i < k + 1 && weekday_of(p.visits@[i].day) == wd) by {
                if wd == wd_idx as int {
                    assert(weekday_of(p.visits@[k as int].day) == wd);
                }
            }
        }
        k = k + 1;
    }
    let most_recent_day: Option<u64> = if n == 0 {
        Option::None
    } else {
        Option::Some(most)
    };
    let r = PersonStats { id: p.id, most_recent_day, visited_tables: tables_seen, visited_weekdays: weekdays };
    proof {
        assert forall|tid: usize| #[trigger]
            r.visited_tables@.contains(tid) <==> has_visit_to_table(p.visits@, tid) by {
            if r.visited_tables@.contains(tid) {
                let i = choose|i: int|
                    0 <= i < r.visited_tables@.len() && r.visited_tables@[i] == tid;
                assert(p.visits@[i].table_id == tid);
            }
            if has_visit_to_table(p.visits@, tid) {
                let i = choose|i: int| 0 <= i < p.visits@.len() && p.visits@[i].table_id == tid;
                assert(r.visited_tables@[i] == tid);
            }
        }
    }
    r
}

/// Scores groups and solutions for one fixed problem instance. Built once per
/// run; pre-indexes every person's visit summary so that each seat is scored
/// without rescanning visit histories.
pub struct ObjectiveValueCalculator {
    pub problem: Ghost<ProblemDescription>,
    pub people_stats: Vec<PersonStats>,
    pub tables_info: Vec<TableDay>,
    pub relations: Vec<RelationWeight>,
}

impl ObjectiveValueCalculator {
    /// The indexes agree with the (well-formed) problem they were built from.
    pub open spec fn wf(&self) -> bool {
        &&& problem_wf(self.problem@)
        &&& self.people_stats@.len() == self.problem@.people@.len()
        &&& forall|i: int|
            0 <= i < self.people_stats@.len() ==> person_stats_wf(
                #[trigger] self.people_stats@[i],
                self.problem@.people@[i],
            )
        &&& self.tables_info@ == self.problem@.tables@
        &&& self.relations@ == self.problem@.people_relations@
    }

    /// Builds the evaluator's indexes from a problem instance.
    pub fn new(input: &ProblemDescription) -> (r: ObjectiveValueCalculator)
        requires
            problem_wf(*input),
        ensures
            r.wf(),
            r.problem@ == *input,
    {
        let mut people_stats: Vec<PersonStats> = Vec::new();
        let mut k: usize = 0;
        while k < input.people.len()
            invariant
                0 <= k <= input.people@.len(),
                people_stats@.len() == k,
                forall|i: int|
                    0 <= i < k ==> person_stats_wf(
                        #[trigger] people_stats@[i],
                        input.people@[i],
                    ),
            decreases input.people@.len() - k,
        {
            let s = build_person_stats(&input.people[k]);
            people_stats.push(s);
            k = k + 1;
        }
        let mut tables_info: Vec<TableDay> = Vec::new();
        let mut k: usize = 0;
        while k < input.tables.len()
            invariant
                0 <= k <= input.tables@.len(),
                tables_info@ == input.tables@.take(k as int),
            decreases input.tables@.len() - k,
        {
            tables_info.push(input.tables[k]);
            proof {
                assert(tables_info@ =~= input.tables@.take(k + 1));
            }
            k = k + 1;
        }
        proof {
            assert(tables_info@ =~= input.tables@);
        }
        let mut relations: Vec<RelationWeight> = Vec::new();
        let mut k: usize = 0;
        while k < input.people_relations.len()
            invariant
                0 <= k <= input.people_relations@.len(),
                relations@ == input.people_relations@.take(k as int),
            decreases input.people_relations@.len() - k,
        {
            relations.push(input.people_relations[k]);
            proof {
                assert(relations@ =~= input.people_relations@.take(k + 1));
            }
            k = k + 1;
        }
        proof {
            assert(relations@ =~= input.people_relations@);
        }
        ObjectiveValueCalculator {
            problem: Ghost(*input),
            people_stats,
            tables_info,
            relations,
        }
    }
}

/// `table_of` returns an element of the sequence, under `has_table`.
pub proof fn lemma_table_of_props(tables: Seq<TableDay>, id: usize)
    requires
        has_table(tables, id),
    ensures
        exists|i: int| 0 <= i < tables.len() && tables[i] == table_of(tables, id),
        table_of(tables, id).id == id,
{
    let i = choose|i: int| 0 <= i < tables.len() && tables[i].id == id;
    assert(tables[i] == table_of(tables, id));
}

/// `person_of` returns an element of the sequence, under `has_person`.
pub proof fn lemma_person_of_props(people: Seq<Person>, id: usize)
    requires
        has_person(people, id),
    ensures
        exists|i: int| 0 <= i < people.len() && people[i] == person_of(people, id),
        person_of(people, id).id == id,
{
    let i = choose|i: int| 0 <= i < people.len() && people[i].id == id;
    assert(people[i] == person_of(people, id));
}

/// Every id referenced by a solution is known to the problem, and no slot's
/// group is over capacity: what the evaluator needs to score it.
pub open spec fn solution_ids_ok(p: ProblemDescription, sol: Seq<(usize, Seq<usize>)>) -> bool {
    &&& forall|i: int| 0 <= i < sol.len() ==> has_table(p.tables@, (#[trigger] sol[i]).0)
    &&& forall|i: int| 0 <= i < sol.len() ==> (#[trigger] sol[i]).1.len() <= MAX_PEOPLE_FOR_TABLE
    &&& forall|i: int, j: int|
        0 <= i < sol.len() && 0 <= j < sol[i].1.len() ==> has_person(
            p.people@,
            #[trigger] sol[i].1[j],
        )
}

/// Whether `x` occurs in `v`.
fn vec_contains_usize(v: &Vec<usize>, x: usize) -> (b: bool)
    ensures
        b == v@.contains(x),
{
    let mut k: usize = 0;
    while k < v.len()
        invariant
            0 <= k <= v@.len(),
            forall|i: int| 0 <= i < k ==> v@[i] != x,
        decreases v@.len() - k,
    {
        if v[k] == x {
            return true;
        }
        k = k + 1;
    }
    proof {
        assert(!v@.contains(x)) by {
            if v@.contains(x) {
                let i = choose|i: int| 0 <= i < v@.len() && v@[i] == x;
            }
        }
    }
    false
}

/// The recency ramp on a day gap, in exact correspondence with
/// `recency_millis`.
fn recency_value(gap: i64) -> (r: i64)
    ensures
        r as int == recency_millis(gap as int),
{
    if gap <= 0 {
        -1000
    } else if gap >= 30 {
        1000
    } else {
        let g: u64 = gap as u64;
        ((g * 1000) / 15) as i64 - 1000
    }
}

impl ObjectiveValueCalculator {
    /// The pre-indexed stats of the person with the given id.
    fn find_person_stats(&self, id: usize) -> (r: &PersonStats)
        requires
            self.wf(),
            has_person(self.problem@.people@, id),
        ensures
            person_stats_wf(*r, person_of(self.problem@.people@, id)),
    {
        let ghost people = self.problem@.people@;
        let mut k: usize = 0;
        while k < self.people_stats.len()
            invariant
                self.wf(),
                people == self.problem@.people@,
                0 <= k <= self.people_stats@.len(),
                forall|i: int| 0 <= i < k ==> (#[trigger] self.people_stats@[i]).id != id,
            decreases self.people_stats@.len() - k,
        {
            if self.people_stats[k].id == id {
                proof {
                    lemma_person_of_is(people, k as int);
                }
                return &self.people_stats[k];
            }
            proof {
                assert(self.people_stats@[k as int].id == people[k as int].id);
            }
            k = k + 1;
        }
        proof {
            let i = choose|i: int| 0 <= i < people.len() && people[i].id == id;
            assert(self.people_stats@[i].id == id);
            assert(false);
        }
        &self.people_stats[0]
    }

    /// The table-day slot with the given id.
    fn find_table(&self, table_day_id: usize) -> (t: TableDay)
        requires
            self.wf(),
            has_table(self.problem@.tables@, table_day_id),
        ensures
            t == table_of(self.problem@.tables@, table_day_id),
            t.id == table_day_id,
            t.day <= MAX_DAY_NUMBER,
    {
        let ghost tables = self.problem@.tables@;
        let mut k: usize = 0;
        while k < self.tables_info.len()
            invariant
                self.wf(),
                tables == self.problem@.tables@,
                0 <= k <= self.tables_info@.len(),
                forall|i: int| 0 <= i < k ==> (#[trigger] tables[i]).id != table_day_id,
            decreases self.tables_info@.len() - k,
        {
            if self.tables_info[k].id == table_day_id {
                proof {
                    lemma_table_of_is(tables, k as int);
                }
                return self.tables_info[k];
            }
            k = k + 1;
        }
        proof {
            let i = choose|i: int| 0 <= i < tables.len() && tables[i].id == table_day_id;
            assert(false);
        }
        self.tables_info[0]
    }

    /// The relation weight in millis between `x` and `y` (zero when no entry
    /// exists for the pair).
    fn relation_score(&self, x: usize, y: usize) -> (r: i64)
        requires
            self.wf(),
        ensures
            r as int == relation_millis(self.problem@.people_relations@, x, y),
            -WEIGHT_LIMIT_MILLIS <= r <= WEIGHT_LIMIT_MILLIS,
    {
        let ghost rels = self.problem@.people_relations@;
        let lo = if x <= y {
            x
        } else {
            y
        };
        let hi = if x <= y {
            y
        } else {
            x
        };
        let mut found: Option<i64> = Option::None;
        let mut k: usize = 0;
        while k < self.relations.len()
            invariant
                self.wf(),
                rels == self.problem@.people_relations@,
                0 <= k <= rels.len(),
                lo == if x <= y {
                    x
                } else {
                    y
                },
                hi == if x <= y {
                    y
                } else {
                    x
                },
                match found {
                    Option::None => relation_upto(rels, x, y, k as int) is None,
                    Option::Some(w) => relation_upto(rels, x, y, k as int) == Option::Some(
                        w as int,
                    ),
                },
            decreases rels.len() - k,
        {
            if found.is_none() && self.relations[k].person_a == lo && self.relations[k].person_b
                == hi {
                found = Option::Some(self.relations[k].weight_millis);
            }
            k = k + 1;
        }
        proof {
            lemma_relation_millis_bound(self.problem@, x, y);
        }
        match found {
            Option::None => 0,
            Option::Some(w) => w,
        }
    }

    /// Value in millis of seating the ordered group `people_ids` at the slot
    /// `table_day_id`: exactly `table_value_millis`, and 0 for an empty group.
    pub fn table_value(&self, table_day_id: usize, people_ids: &Vec<usize>) -> (r: i64)
        requires
            self.wf(),
            has_table(self.problem@.tables@, table_day_id),
            forall|i: int|
                0 <= i < people_ids@.len() ==> has_person(
                    self.problem@.people@,
                    #[trigger] people_ids@[i],
                ),
            people_ids@.len() <= MAX_PEOPLE_FOR_TABLE,
        ensures
            r as int == table_value_millis(self.problem@, table_day_id, people_ids@),
            -table_value_limit() <= r as int <= table_value_limit(),
    {
        let ghost problem = self.problem@;
        let ghost g = people_ids@;
        let t = self.find_table(table_day_id);
        let n = people_ids.len();
        let mut total: i64 = 0;
        let mut k: usize = 0;
        while k < n
            invariant
                self.wf(),
                problem == self.problem@,
                g == people_ids@,
                n == g.len() <= MAX_PEOPLE_FOR_TABLE,
                forall|i: int| 0 <= i < g.len() ==> has_person(problem.people@, #[trigger] g[i]),
                t == table_of(problem.tables@, table_day_id),
                t.day <= MAX_DAY_NUMBER,
                0 <= k <= n,
                total as int == seat_sum(problem, t, g, k as int),
                -(k as int) * seat_term_limit() <= total as int <= (k as int) * seat_term_limit(),
            decreases n - k,
        {
            let pid = people_ids[k];
            let mut term: i64 = 0;
            if n != 1 {
                let next = people_ids[(k + 1) % n];
                proof {
                    assert((k + 1) % n as int == ((k as int) + 1) % (g.len() as int));
                }
                term = self.relation_score(pid, next);
            }
            let stats = self.find_person_stats(pid);
            let ghost person = person_of(problem.people@, pid);
            proof {
                lemma_person_of_props(problem.people@, pid);
                let i = choose|i: int|
                    0 <= i < problem.people@.len() && problem.people@[i] == person;
                assert(visits_wf(person.visits@));
            }
            let rec: i64 = match stats.most_recent_day {
                Option::None => 1000,
                Option::Some(d) => {
                    proof {
                        lemma_max_day_bounds(person.visits@, person.visits@.len() as int);
                    }
                    let gap: i64 = t.day as i64 - d as i64;
                    recency_value(gap)
                },
            };
            proof {
                lemma_recency_bounds(t.day - max_day_upto(person.visits@, person.visits@.len() as int));
            }
            let tb: i64 = if !vec_contains_usize(&stats.visited_tables, t.table_id) {
                500
            } else {
                0
            };
            let wd_idx: usize = (t.day % 7) as usize;
            proof {
                assert(wd_idx as int == weekday_of(t.day));
            }
            let wb: i64 = if !stats.visited_weekdays[wd_idx] {
                500
            } else {
                0
            };
            proof {
                assert((rec + tb + wb) as int == person_term_millis(person, t));
                assert((term + rec + tb + wb) as int == seat_term(problem, t, g, k as int));
                lemma_seat_term_bounds(problem, t, g, k as int);
                lemma_seat_sum_bounds(problem, t, g, k as int);
                lemma_seat_sum_bounds(problem, t, g, k + 1);
            }
            total = total + term + rec + tb + wb;
            k = k + 1;
        }
        proof {
            lemma_seat_sum_bounds(problem, t, g, g.len() as int);
            vstd::arithmetic::mul::lemma_mul_inequality(
                g.len() as int,
                MAX_PEOPLE_FOR_TABLE as int,
                seat_term_limit(),
            );
            vstd::arithmetic::mul::lemma_mul_inequality(
                -(MAX_PEOPLE_FOR_TABLE as int),
                -(g.len() as int),
                seat_term_limit(),
            );
            assert(seat_term_limit() == 1_000_002_000);
            assert((MAX_PEOPLE_FOR_TABLE as int) * seat_term_limit() == table_value_limit());
            assert(-(MAX_PEOPLE_FOR_TABLE as int) * seat_term_limit() == -table_value_limit())
                by (nonlinear_arith);
            assert(-(g.len() as int) * seat_term_limit() == -((g.len() as int)
                * seat_term_limit())) by (nonlinear_arith);
        }
        total
    }

    /// Aggregate value in millis of a whole solution: the sum of
    /// `table_value` over every slot.
    pub fn solution_value(&self, solution: &Solution) -> (r: i64)
        requires
            self.wf(),
            solution@.len() <= MAX_TABLE_DAYS,
            solution_ids_ok(self.problem@, solution@),
        ensures
            r as int == solution_value_millis(self.problem@, solution@),
            -solution_value_limit() <= r as int <= solution_value_limit(),
    {
        let ghost problem = self.problem@;
        let ghost sol = solution@;
        let n = solution.solution_per_table.len();
        proof {
            assert(sol.len() == n);
        }
        let mut total: i64 = 0;
        let mut k: usize = 0;
        while k < n
            invariant
                self.wf(),
                problem == self.problem@,
                sol == solution@,
                n == sol.len() <= MAX_TABLE_DAYS,
                solution_ids_ok(problem, sol),
                n == solution.solution_per_table@.len(),
                0 <= k <= n,
                total as int == solution_value_upto(problem, sol, k as int),
                -(k as int) * table_value_limit() <= total as int <= (k as int)
                    * table_value_limit(),
            decreases n - k,
        {
            let slot = &solution.solution_per_table[k];
            proof {
                assert(sol[k as int] == solution.solution_per_table@[k as int]@);
                assert(sol[k as int].0 == slot.table_day_id);
                assert(sol[k as int].1 == slot.people@);
            }
            let tv = self.table_value(slot.table_day_id, &slot.people);
            proof {
                lemma_solution_value_bounds(problem, sol, k as int);
                lemma_solution_value_bounds(problem, sol, k + 1);
            }
            total = total + tv;
            k = k + 1;
        }
        proof {
            lemma_solution_value_bounds(problem, sol, n as int);
        }
        total
    }
}

} // verus!
